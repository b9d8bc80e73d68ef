use blob_chunk::circuit::BlobCircuit;
use blob_chunk::domain::{bit_reversal_index, blob_width_th_root_of_unity, roots_of_unity_brp};
use blob_chunk::eval::evaluate;
use blob_chunk::field::Fe;
use bls12_381::Scalar;
use rand::RngCore;

/// (order − 1) / 4096, as the little-endian 64-bit limbs `Scalar::pow` takes.
const ROOT_EXPONENT: [u64; 4] = [
    0xbfeffffffff00000,
    0x80553bda402fffe5,
    0xd483339d80809a1d,
    0x00073eda753299d7,
];

fn random_scalar(rng: &mut impl RngCore) -> Scalar {
    let mut wide = [0u8; 64];
    rng.fill_bytes(&mut wide);
    Scalar::from_bytes_wide(&wide)
}

fn fe_of(s: &Scalar) -> Fe {
    Fe::from_le_bytes(&s.to_bytes()).expect("canonical")
}

/// The reference domain, computed with bls12_381 alone.
fn reference_domain() -> Vec<Scalar> {
    let omega = Scalar::from(7).pow(&ROOT_EXPONENT);
    let powers: Vec<Scalar> = {
        let mut v = Vec::with_capacity(4096);
        let mut cur = Scalar::one();
        for _ in 0..4096 {
            v.push(cur);
            cur *= omega;
        }
        v
    };
    (0..4096usize)
        .map(|i| {
            let mut r = 0usize;
            for b in 0..12 {
                r = (r << 1) | ((i >> b) & 1);
            }
            powers[r]
        })
        .collect()
}

/// The reference barycentric evaluation over a window, with bls12_381 alone.
fn reference_eval(domain: &[Scalar], blob: &[Scalar], index: usize, z: &Scalar) -> Scalar {
    let mut direct = Scalar::zero();
    let mut sum = Scalar::zero();
    let mut on_domain = false;
    for (i, b) in blob.iter().enumerate() {
        let d = domain[index + i];
        if *z == d {
            direct += b;
        } else {
            sum += *b * d * (*z - d).invert().unwrap();
        }
    }
    for d in domain.iter() {
        if *z == *d {
            on_domain = true;
        }
    }
    if on_domain {
        direct
    } else {
        let width = Scalar::from(4096u64);
        let factor = (z.pow(&[4096, 0, 0, 0]) - Scalar::one()) * width.invert().unwrap();
        direct + sum * factor
    }
}

#[test]
fn test_root_of_unity() {
    let omega = blob_width_th_root_of_unity();
    let expected = Scalar::from(7).pow(&ROOT_EXPONENT);
    assert_eq!(omega.to_le_bytes(), expected.to_bytes());
    // a primitive 4096th root: its 4096th power is one, its 2048th is not
    assert_eq!(expected.pow(&[4096, 0, 0, 0]), Scalar::one());
    assert_ne!(expected.pow(&[2048, 0, 0, 0]), Scalar::one());
}

#[test]
fn test_domain_matches_reference() {
    let domain = roots_of_unity_brp();
    let reference = reference_domain();
    assert_eq!(domain.len(), 4096);
    for i in (0..4096).step_by(97) {
        assert_eq!(domain[i].to_le_bytes(), reference[i].to_bytes());
    }
    assert_eq!(bit_reversal_index(1), 2048);
    assert_eq!(bit_reversal_index(2048), 1);
    assert_eq!(bit_reversal_index(0), 0);
    assert_eq!(domain[0].to_le_bytes(), Scalar::one().to_bytes());
}

#[test]
fn test_blob_consistency() {
    let mut rng = rand::thread_rng();
    let blob_scalars: Vec<Scalar> = (0..4096).map(|_| random_scalar(&mut rng)).collect();
    let challenge_point = random_scalar(&mut rng);

    let domain = roots_of_unity_brp();
    let blob: Vec<Fe> = blob_scalars.iter().map(fe_of).collect();
    let z = fe_of(&challenge_point);
    let result = evaluate(&domain, &blob, 0, &z);

    let reference = reference_eval(&reference_domain(), &blob_scalars, 0, &challenge_point);
    assert_eq!(result.to_le_bytes(), reference.to_bytes());
}

#[test]
fn test_partial_blob_consistency() {
    let mut rng = rand::thread_rng();
    let blob_scalars: Vec<Scalar> = (0..51).map(|_| random_scalar(&mut rng)).collect();
    let index = 50;
    let challenge_point = random_scalar(&mut rng);

    let domain = roots_of_unity_brp();
    let blob: Vec<Fe> = blob_scalars.iter().map(fe_of).collect();
    let z = fe_of(&challenge_point);
    let result = evaluate(&domain, &blob, index, &z);

    let reference = reference_eval(&reference_domain(), &blob_scalars, index, &challenge_point);
    assert_eq!(result.to_le_bytes(), reference.to_bytes());
}

#[test]
fn test_challenge_on_domain() {
    let mut rng = rand::thread_rng();
    let blob_scalars: Vec<Scalar> = (0..5).map(|_| random_scalar(&mut rng)).collect();
    let index = 2;
    let domain = roots_of_unity_brp();
    let blob: Vec<Fe> = blob_scalars.iter().map(fe_of).collect();

    // the challenge point sits on a domain point inside the window:
    // the result is the blob value there, not an interpolation
    let z = domain[index + 3];
    let result = evaluate(&domain, &blob, index, &z);
    assert_eq!(result.to_le_bytes(), blob_scalars[3].to_bytes());

    // on a domain point outside the window the held values contribute
    // nothing: the result is zero
    let z = domain[0];
    let result = evaluate(&domain, &blob, index, &z);
    assert_eq!(result.to_le_bytes(), Scalar::zero().to_bytes());
}

#[test]
fn test_instance_limbs() {
    let mut rng = rand::thread_rng();
    let blob_scalars: Vec<Scalar> = (0..3).map(|_| random_scalar(&mut rng)).collect();
    let challenge_point = random_scalar(&mut rng);
    let z = fe_of(&challenge_point);
    let blob: Vec<Fe> = blob_scalars.iter().map(fe_of).collect();

    let circuit = BlobCircuit::new([0u8; 32], z, 7, blob.clone(), Fe::zero());
    let instance = circuit.instance();
    assert_eq!(instance.len(), 6);

    let reconstruct = |limbs: &[u128]| -> [u8; 32] {
        let mut bytes = [0u8; 32];
        bytes[0..11].copy_from_slice(&limbs[0].to_le_bytes()[0..11]);
        bytes[11..22].copy_from_slice(&limbs[1].to_le_bytes()[0..11]);
        bytes[22..32].copy_from_slice(&limbs[2].to_le_bytes()[0..10]);
        bytes
    };
    // the first three limbs rebuild the challenge point
    assert_eq!(reconstruct(&instance[0..3]), challenge_point.to_bytes());
    // the last three rebuild the evaluation at the challenge point
    let domain = roots_of_unity_brp();
    let result = evaluate(&domain, &blob, 7, &fe_of(&challenge_point));
    assert_eq!(reconstruct(&instance[3..6]), result.to_le_bytes());
    let reference = reference_eval(&reference_domain(), &blob_scalars, 7, &challenge_point);
    assert_eq!(reconstruct(&instance[3..6]), reference.to_bytes());
}
