use dwt::wavelet::Haar;
use dwt::Operation;
use mwm::{cascade, recurse, Error, Layout};
use probability::distribution::{Beta, Gaussian, Sample};
use probability::source;
use statistics::{mean, variance};
use std::cell::RefCell;

fn mean_square(data: &[f64]) -> f64 {
    data.iter().fold(0.0, |sum, &x| sum + x * x) / data.len() as f64
}

fn fit(data: &[f64], layout: Layout) -> Result<(Gaussian, Vec<f64>), Error> {
    let mut coeffs = data[..layout.len()].to_vec();
    dwt::transform(&mut coeffs, Operation::Forward, &Haar::new(), layout.scales());
    let (start, end) = layout.coarse();
    let mu: f64 = mean(&coeffs[start..end]);
    let var: f64 = variance(&coeffs[start..end]);
    let energies: Vec<f64> = layout.ranges().iter().map(|&(s, e)| mean_square(&coeffs[s..e])).collect();
    let betas = recurse(0.0, layout.scales(), |i: usize, beta: f64| {
        let next = 0.5 * (energies[i] / energies[i + 1]) * (beta + 1.0) - 0.5;
        if next > 0.0 {
            Some(next)
        } else {
            None
        }
    })?;
    Ok((Gaussian::new(mu, var.sqrt()), betas))
}

fn close(actual: f64, expected: f64) {
    assert!((actual - expected).abs() < 1e-14, "{} is not {}", actual, expected);
}

const FIRST: [f64; 42] = [
    4.018080337519417e-01, 7.596669169084191e-02, 2.399161535536580e-01,
    1.233189348351655e-01, 1.839077882824167e-01, 2.399525256649028e-01,
    4.172670690843695e-01, 4.965443032574213e-02, 9.027161099152811e-01,
    9.447871897216460e-01, 4.908640924680799e-01, 4.892526384000189e-01,
    3.377194098213772e-01, 9.000538464176620e-01, 3.692467811202150e-01,
    1.112027552937874e-01, 7.802520683211379e-01, 3.897388369612534e-01,
    2.416912859138327e-01, 4.039121455881147e-01, 9.645452516838859e-02,
    1.319732926063351e-01, 9.420505907754851e-01, 9.561345402298023e-01,
    5.752085950784656e-01, 5.977954294715582e-02, 2.347799133724063e-01,
    3.531585712220711e-01, 8.211940401979591e-01, 1.540343765155505e-02,
    4.302380165780784e-02, 1.689900294627044e-01, 6.491154749564521e-01,
    7.317223856586703e-01, 6.477459631363067e-01, 4.509237064309449e-01,
    5.470088922863450e-01, 2.963208056077732e-01, 7.446928070741562e-01,
    1.889550150325445e-01, 6.867754333653150e-01, 1.835111557372697e-01,
];

const SECOND: [f64; 42] = [
    4.983640519821430e-01, 9.597439585160811e-01, 3.403857266661332e-01,
    5.852677509797773e-01, 2.238119394911370e-01, 7.512670593056529e-01,
    2.550951154592691e-01, 5.059570516651424e-01, 6.990767226566860e-01,
    8.909032525357985e-01, 9.592914252054443e-01, 5.472155299638031e-01,
    1.386244428286791e-01, 1.492940055590575e-01, 2.575082541237365e-01,
    8.407172559836625e-01, 2.542821789715310e-01, 8.142848260688164e-01,
    2.435249687249893e-01, 9.292636231872278e-01, 3.499837659848087e-01,
    1.965952504312082e-01, 2.510838579760311e-01, 6.160446761466392e-01,
    4.732888489027293e-01, 3.516595070629968e-01, 8.308286278962909e-01,
    5.852640911527243e-01, 5.497236082911395e-01, 9.171936638298100e-01,
    2.858390188203735e-01, 7.572002291107213e-01, 7.537290942784953e-01,
    3.804458469753567e-01, 5.678216407252211e-01, 7.585428956306361e-02,
    5.395011866660715e-02, 5.307975530089727e-01, 7.791672301020112e-01,
    9.340106842291830e-01, 1.299062084737301e-01, 5.688236608721927e-01,
];

#[test]
fn new() {
    let layout = Layout::with_blocks(FIRST.len(), 5).unwrap();
    assert_eq!(layout.scales(), 3);
    let (gaussian, betas) = fit(&FIRST, layout).unwrap();
    let expected = [1.635153583946054e+01, 2.793188701574629e+00, 3.739374677617142e+00];
    assert_eq!(betas.len(), expected.len());
    for (&actual, &expected) in betas.iter().zip(expected.iter()) {
        close(actual, expected);
    }
    close(gaussian.mu(), 1.184252871226982e+00);
    close(gaussian.sigma(), 4.466592147518644e-01);

    let repeated = fit(&FIRST, layout).unwrap();
    assert_eq!(repeated.1, betas);
    assert_eq!(repeated.0.mu().to_bits(), gaussian.mu().to_bits());
    assert_eq!(repeated.0.sigma().to_bits(), gaussian.sigma().to_bits());

    let again = fit(&FIRST, Layout::with_scales(FIRST.len(), 3).unwrap()).unwrap();
    assert_eq!(again.1, betas);
    assert_eq!(again.0.mu().to_bits(), gaussian.mu().to_bits());
    assert_eq!(again.0.sigma().to_bits(), gaussian.sigma().to_bits());
}

#[test]
fn sample() {
    let layout = Layout::with_scales(SECOND.len(), 3).unwrap();
    let (gaussian, betas) = fit(&SECOND, layout).unwrap();
    let pearsons: Vec<Beta> = betas.iter().map(|&b| Beta::new(b, b, -1.0, 1.0)).collect();
    let source = RefCell::new(source::default(42));
    let z = 0.5f64.powf(betas.len() as f64 / 2.0) * gaussian.sample(&mut *source.borrow_mut());
    assert!(z >= 0.0);
    let data = cascade(z, betas.len(), |i: usize, x: f64| {
        let a = pearsons[i].sample(&mut *source.borrow_mut());
        ((1.0 + a) * x, (1.0 - a) * x)
    });
    assert_eq!(data.len(), 8);
    assert!(data.iter().all(|&v| v >= 0.0));
}
