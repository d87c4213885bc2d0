use backend::element_map::ElementMap;
use backend::model::CircuitModel;
use backend::network::Network;
use num::complex::Complex32;
use std::f32::consts::PI;

/// The impedance of an assembled network whose leaves hold element
/// impedances: series members add, parallel members add as admittances.
fn network_impedance(net: &Network<Complex32>) -> Complex32 {
    match net {
        Network::Element(z) => *z,
        Network::Series(parts) => parts.iter().map(network_impedance).sum(),
        Network::Parallel(parts) => {
            1. / parts
                .iter()
                .map(|p| 1. / network_impedance(p))
                .sum::<Complex32>()
        }
    }
}

fn resistor(r: f32) -> Complex32 {
    Complex32::new(r, 0.)
}

fn omega(f: f32) -> f32 {
    2. * PI * f
}

fn capacitor(c: f32, f: f32) -> Complex32 {
    let i = Complex32::new(0.0, 1.0);
    1.0 / (Complex32::new(c, 0.) * i * omega(f))
}

fn resistors(values: &[f32]) -> ElementMap<Complex32> {
    let mut elements = ElementMap::new();
    elements.insert("R", values.iter().map(|r| resistor(*r)).collect());
    elements
}

fn impedance(circuit: &str, elements: ElementMap<Complex32>) -> Complex32 {
    let mut model = CircuitModel::new(String::from(circuit), elements);
    assert_eq!(model.check(), Ok(()));
    network_impedance(&model.assemble())
}

#[test]
fn case_0() {
    let z = impedance("R(RR)", resistors(&[1., 1., 1.]));
    assert_eq!(z, Complex32 { re: 1.5, im: 0. });
}

#[test]
fn case_1() {
    let freq = 1.;
    let mut elements = resistors(&[1., 2., 4.]);
    elements.insert("C", vec![capacitor(3., freq), capacitor(5., freq)]);
    let z = impedance("R(RC)(RC)", elements);
    assert_eq!(
        z,
        Complex32 {
            re: 1.0016595,
            im: -0.08484332
        }
    );
}

#[test]
fn case_2() {
    let z = impedance("R(RR)(RR)", resistors(&[1., 2., 2., 3., 3.]));
    assert_eq!(z, Complex32 { re: 3.5, im: 0. });
}

#[test]
fn case_3() {
    let z = impedance("R(RR(RR))", resistors(&[1., 2., 2., 3., 3.]));
    assert_eq!(
        z,
        Complex32 {
            re: 1.8571429,
            im: 0.
        }
    );
}

#[test]
fn case_4() {
    let z = impedance("R(R)(R)", resistors(&[1., 2., 3.]));
    assert_eq!(z, Complex32 { re: 6., im: 0. });
}

#[test]
fn case_5() {
    let z = impedance("(RRR)", resistors(&[1., 2., 3.]));
    assert_eq!(
        z,
        Complex32 {
            re: 0.54545456,
            im: 0.
        }
    );
}

#[test]
fn case_6() {
    let z = impedance("R(R(R(RR)))", resistors(&[1., 2., 3., 4., 5.]));
    assert_eq!(
        z,
        Complex32 {
            re: 2.4461539,
            im: 0.
        }
    );
}

#[test]
fn case_7() {
    let z = impedance("R(R(RR))", resistors(&[1., 2., 3., 4.]));
    assert_eq!(
        z,
        Complex32 {
            re: 2.5555556,
            im: 0.
        }
    );
}

#[test]
fn case_8() {
    let z = impedance(
        "R(R(R(R(RR))))(RR)",
        resistors(&[1., 2., 3., 4., 5., 6., 7., 8.]),
    );
    assert_eq!(
        z,
        Complex32 {
            re: 6.2291317,
            im: 0.
        }
    );
}

#[test]
fn case_9() {
    let z = impedance("R(RR(RR)(RR))", resistors(&[1., 2., 3., 4., 5., 6., 7.]));
    assert_eq!(
        z,
        Complex32 {
            re: 1.9790795,
            im: 0.
        }
    );
}

#[test]
fn case_10() {
    let z = impedance("R(RR)(RR)", resistors(&[1., 2., 3., 4., 5.]));
    assert_eq!(
        z,
        Complex32 {
            re: 4.422222,
            im: 0.
        }
    );
}

#[test]
fn case_multi_char_elements() {
    let freq = 1.;
    let i = Complex32::new(0.0, 1.0);
    let w = omega(freq);
    // Constant phase element: 1 / (Q (i w)^alpha)
    let cpe = 1.0 / (Complex32::new(1e-6, 0.) * (i * w).powf(0.9));
    let mut elements = resistors(&[100.]);
    elements.insert("CPE", vec![cpe]);
    elements.insert("C", vec![capacitor(1e-6, freq)]);

    // Circuit: R in series with parallel combination of CPE and C
    let result = impedance("R(CPEC)", elements);

    assert!(result.re.is_finite());
    assert!(result.im.is_finite());
}

#[test]
fn case_warburg_elements() {
    let freq = 1.;
    let i = Complex32::new(0.0, 1.0);
    let w = omega(freq);
    let z0 = Complex32::new(100., 0.);
    let s = (i * w * 0.1).sqrt();
    // Open Warburg: Z0 / (s tanh s); short Warburg: Z0 tanh(s) / s
    let wo = z0 / (s * s.tanh());
    let ws = z0 * s.tanh() / s;
    let mut elements = resistors(&[50.]);
    elements.insert("Wo", vec![wo]);
    elements.insert("Ws", vec![ws]);

    // Circuit: R in series with Wo, parallel with Ws
    let result = impedance("RWo(Ws)", elements);

    assert!(result.re.is_finite());
    assert!(result.im.is_finite());
}

#[test]
fn case_complex_multi_char() {
    let freq = 10.;
    let i = Complex32::new(0.0, 1.0);
    let w = omega(freq);
    // Simplified transmission line: zs = 1 / (Qs (i w)^gamma)
    let rion = Complex32::new(50., 0.);
    let zs = 1.0 / (1e-6 * (i * w).powf(0.85));
    let tlmq = (rion * zs).sqrt() / (rion / zs).sqrt().tanh();
    // Zarc: R / (1 + (i w tau)^gamma)
    let zarc = Complex32::new(100., 0.) / (1.0 + (i * w * 0.01).powf(0.9));
    let mut elements = resistors(&[10.]);
    elements.insert("TLMQ", vec![tlmq]);
    elements.insert("Zarc", vec![zarc]);

    // Circuit: R in series with parallel TLMQ and Zarc
    let result = impedance("R(TLMQZarc)", elements);

    assert!(result.re.is_finite());
    assert!(result.im.is_finite());
    assert!(result.re > 0.); // Should have positive real part
}
