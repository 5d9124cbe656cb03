use ghosenet::nn::{dropout_apply, Dropout, LeakyReLU, Linear, Parameter, ReLU, Sequential, Sigmoid, Softmax, Swish, Tanh};
use ghosenet::Tensor;

#[test]
fn test_relu() {
    let relu = ReLU;
    let input = Tensor::new(vec![-1.0f32, 0.0, 1.0, 3.5], vec![4], false);
    let output = relu.forward(&input, |x: f32| x > 0.0);
    assert_eq!(output.data, vec![0.0, 0.0, 1.0, 3.5]);
}

#[test]
fn test_sigmoid() {
    let sigmoid = Sigmoid;
    let input = Tensor::new(vec![-2.0f32, 0.0, 2.0], vec![3], false);
    let output = sigmoid.forward(&input, |x: f32| 1.0 / (1.0 + (-x).exp()));
    let expected: Vec<f32> = input.data.iter().map(|&x| 1.0 / (1.0 + (-x).exp())).collect();
    for (o, e) in output.data.iter().zip(expected.iter()) {
        assert!((o - e).abs() < 1e-5);
    }
}

#[test]
fn test_tanh() {
    let tanh = Tanh;
    let input = Tensor::new(vec![-2.0f32, 0.0, 2.0], vec![3], false);
    let output = tanh.forward(&input, |x: f32| x.tanh());
    let expected: Vec<f32> = input.data.iter().map(|&x| x.tanh()).collect();
    for (o, e) in output.data.iter().zip(expected.iter()) {
        assert!((o - e).abs() < 1e-5);
    }
}

#[test]
fn test_swish() {
    let swish = Swish;
    let input = Tensor::new(vec![-1.0f32, 0.0, 1.0], vec![3], false);
    let output = swish.forward(&input, |x: f32| x / (1.0 + (-x).exp()));
    let expected: Vec<f32> = input.data.iter().map(|&x| x / (1.0 + (-x).exp())).collect();
    for (o, e) in output.data.iter().zip(expected.iter()) {
        assert!((o - e).abs() < 1e-5);
    }
}

#[test]
fn activations_keep_gradient_and_shape() {
    let mut input = Tensor::new(vec![-1.0f32, 2.0], vec![2, 1], true);
    input.backward(1.0);
    let out = ReLU.forward(&input, |x: f32| x > 0.0);
    assert_eq!(out.shape, vec![2, 1]);
    assert_eq!(out.grad, Some(vec![1.0, 1.0]));
    assert!(out.requires_grad);
}

#[test]
fn linear_layer_forward() {
    let layer: Linear<f32> = Linear::new(2, 3, true, |shape: Vec<usize>| {
        Tensor::new(vec![1.0, 0.0, 0.0, 1.0, 1.0, 1.0], shape, true)
    });
    assert_eq!(layer.weight.shape, vec![3, 2]);
    let bias = layer.bias.as_ref().unwrap();
    assert_eq!(bias.shape, vec![1, 3]);
    assert_eq!(bias.data, vec![0.0; 3]);
    let input = Tensor::new(vec![0.5f32, -1.0, 2.0, 3.0], vec![2, 2], false);
    let out = layer.forward_with(&input, |acc: f32, x: f32, y: f32| acc + x * y, |x: f32, y: f32| x + y);
    assert_eq!(out.shape, vec![2, 3]);
    assert_eq!(out.data, vec![0.5, -1.0, -0.5, 2.0, 3.0, 5.0]);
    assert_eq!(layer.parameters().len(), 2);
}

#[test]
fn linear_layer_without_bias() {
    let mut layer: Linear<f32> = Linear::new(2, 1, false, |shape: Vec<usize>| {
        Tensor::new(vec![2.0, 3.0], shape, true)
    });
    assert!(layer.bias.is_none());
    let input = Tensor::new(vec![1.0f32, 1.0], vec![1, 2], false);
    let out = layer.forward_with(&input, |acc: f32, x: f32, y: f32| acc + x * y, |x: f32, y: f32| x + y);
    assert_eq!(out.data, vec![5.0]);
    layer.weight.backward(1.0);
    layer.zero_grad();
    assert_eq!(layer.weight.grad, Some(vec![0.0, 0.0]));
    assert_eq!(layer.parameters().len(), 1);
}

#[test]
fn parameter_wraps_tracked_tensor() {
    let p = Parameter::new(Tensor::new(vec![1.0f32], vec![1], true));
    assert!(p.value.requires_grad);
}

#[test]
fn dropout_drops_every_fourth() {
    let input = Tensor::new(vec![1.0f32; 6], vec![6], false);
    let out = dropout_apply(&input, |x: f32| x * 2.0);
    assert_eq!(out.data, vec![0.0, 2.0, 2.0, 2.0, 0.0, 2.0]);
}

fn softmax_f32(input: &Tensor<f32>) -> Tensor<f32> {
    Softmax.forward(
        input,
        f32::NEG_INFINITY,
        |a: f32, b: f32| a.max(b),
        |x: f32, m: f32| (x - m).exp(),
        |a: f32, b: f32| a + b,
        |a: f32, b: f32| a / b,
    )
}

#[test]
fn test_leaky_relu() {
    let leaky_relu = LeakyReLU { negative_slope: 0.01f32 };
    let input = Tensor::new(vec![-2.0f32, 0.0, 2.0], vec![3], false);
    let output = leaky_relu.forward(&input, |x: f32| x > 0.0, |a: f32, x: f32| a * x);
    let expected = vec![-0.02f32, 0.0, 2.0];
    for (o, e) in output.data.iter().zip(expected.iter()) {
        assert!((o - e).abs() < 1e-5);
    }
}

#[test]
fn test_softmax() {
    let input = Tensor::new(vec![1.0f32, 2.0, 3.0], vec![3], false);
    let output = softmax_f32(&input);
    let exp_vals: Vec<f32> = input.data.iter().map(|&x| x.exp()).collect();
    let sum: f32 = exp_vals.iter().sum();
    let expected: Vec<f32> = exp_vals.iter().map(|&x| x / sum).collect();
    for (o, e) in output.data.iter().zip(expected.iter()) {
        assert!((o - e).abs() < 1e-5);
    }
}

#[test]
fn softmax_keeps_shape_and_sums_to_one() {
    let input = Tensor::new(vec![1000.0f32, 1001.0, -5.0, 0.0], vec![2, 2], true);
    let output = softmax_f32(&input);
    assert_eq!(output.shape, vec![2, 2]);
    assert!(output.requires_grad);
    assert_eq!(output.grad, Some(vec![0.0; 4]));
    let total: f32 = output.data.iter().sum();
    assert!((total - 1.0).abs() < 1e-5);
    assert!(output.data.iter().all(|x| x.is_finite()));
}

#[test]
fn softmax_with_integer_arithmetic() {
    let input = Tensor::new(vec![3u64, 7, 5], vec![3], false);
    let output = Softmax.forward(
        &input,
        0u64,
        |a: u64, b: u64| a.max(b),
        |x: u64, m: u64| m - x + 1,
        |a: u64, b: u64| a + b,
        |a: u64, b: u64| a * 100 / b,
    );
    assert_eq!(output.data, vec![55, 11, 33]);
}

#[test]
fn leaky_relu_keeps_gradient() {
    let mut input = Tensor::new(vec![-4.0f32, 3.0], vec![2], true);
    input.backward(1.0);
    let out = LeakyReLU { negative_slope: 0.5f32 }.forward(&input, |x: f32| x > 0.0, |a: f32, x: f32| a * x);
    assert_eq!(out.data, vec![-2.0, 3.0]);
    assert_eq!(out.grad, Some(vec![1.0, 1.0]));
}

#[test]
fn dropout_bypass_and_pattern() {
    let input = Tensor::new(vec![1.0f32, 2.0, 3.0, 4.0, 5.0], vec![5], false);
    let mut d = Dropout::new(0.5f32, |q: f32| q >= 0.0 && q < 1.0);
    assert!(d.training);
    let out = d.forward_with(&input, |p: f32| p == 0.0, |x: f32| x * 2.0);
    assert_eq!(out.data, vec![0.0, 4.0, 6.0, 8.0, 0.0]);
    d.eval();
    assert!(!d.training);
    let same = d.forward_with(&input, |p: f32| p == 0.0, |x: f32| x * 2.0);
    assert_eq!(same.data, input.data);
    d.train();
    let none = Dropout::new(0.0f32, |q: f32| q >= 0.0 && q < 1.0).forward_with(&input, |p: f32| p == 0.0, |x: f32| x * 2.0);
    assert_eq!(none.data, input.data);
    assert!(d.training);
}

#[test]
fn sequential_runs_layers_in_order() {
    let layers: Vec<u64> = vec![2, 3, 10];
    let seq = Sequential::new(layers);
    let input = Tensor::new(vec![1u64, 5], vec![2], false);
    // each layer multiplies by its factor and then adds 1
    let out = seq.forward_with(&input, |f: &u64, t: &Tensor<u64>| {
        Tensor::new(t.data.iter().map(|x| x * f + 1).collect(), t.shape.clone(), false)
    });
    assert_eq!(out.data, vec![((1 * 2 + 1) * 3 + 1) * 10 + 1, ((5 * 2 + 1) * 3 + 1) * 10 + 1]);
    let params = seq.parameters_with(|f: &u64| vec![Tensor::new(vec![*f], vec![1], true)]);
    assert_eq!(params.len(), 3);
    assert_eq!(params[2].data, vec![10]);
    let empty: Sequential<u64> = Sequential::new(vec![]);
    assert_eq!(empty.forward_with(&input, |_f: &u64, t: &Tensor<u64>| t.clone()).data, vec![1, 5]);
}

enum Layer {
    Dense(Linear<f32>),
    Rectifier(ReLU),
    Logistic(Sigmoid),
}

fn run_layer(layer: &Layer, t: &Tensor<f32>) -> Tensor<f32> {
    match layer {
        Layer::Dense(l) => l.forward_with(t, |acc: f32, x: f32, y: f32| acc + x * y, |x: f32, y: f32| x + y),
        Layer::Rectifier(r) => r.forward(t, |x: f32| x > 0.0),
        Layer::Logistic(s) => s.forward(t, |x: f32| 1.0 / (1.0 + (-x).exp())),
    }
}

fn fixed_init(shape: Vec<usize>) -> Tensor<f32> {
    let n: usize = shape.iter().product();
    let data: Vec<f32> = (0..n).map(|i| 0.1 * (i as f32 + 1.0) - 0.3).collect();
    Tensor::new(data, shape, true)
}

#[test]
fn test_simple_forward() {
    let input_data = vec![
        0.5, -1.2, // sample 1
        1.0, 0.8, // sample 2
    ];
    let input = Tensor::new(input_data, vec![2, 2], false);
    let model = Sequential::new(vec![
        Layer::Dense(Linear::new(2, 3, true, fixed_init)),
        Layer::Rectifier(ReLU),
        Layer::Dense(Linear::new(3, 1, true, fixed_init)),
        Layer::Logistic(Sigmoid),
    ]);
    let output = model.forward_with(&input, run_layer);
    assert_eq!(output.shape, vec![2, 1]);
    assert!(output.data.iter().all(|&x| x > 0.0 && x < 1.0));
}
