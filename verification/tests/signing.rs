use cryptokit::bignum::BigNum;
use cryptokit::signature::{signature, signature_with, SignatureTrace};
use num_bigint::{BigInt, Sign};

fn big(v: &BigNum) -> BigInt {
    BigInt::new(if v.negative { Sign::Minus } else { Sign::Plus }, v.digits.clone())
}

fn num(s: &str) -> BigNum {
    let (sign, digits) = BigInt::parse_bytes(s.as_bytes(), 10).unwrap().to_u32_digits();
    BigNum { negative: sign == Sign::Minus, digits }
}

fn dec(v: &BigNum) -> String {
    big(v).to_string()
}

fn check(t: &SignatureTrace, expected: [&str; 8]) {
    assert_eq!(dec(&t.g), expected[0]);
    assert_eq!(dec(&t.r), expected[1]);
    assert_eq!(dec(&t.rho), expected[2]);
    assert_eq!(dec(&t.x), expected[3]);
    assert_eq!(dec(&t.y), expected[4]);
    assert_eq!(dec(&t.s), expected[5]);
    assert_eq!(dec(&t.x1), expected[6]);
    assert_eq!(dec(&t.x2), expected[7]);
}

#[test]
fn signing_with_fixed_draws() {
    let h = BigNum::from_u32(1234567890);
    let t = signature_with(&h, BigNum::from_u32(3), BigNum::from_u32(12345)).ok().unwrap();
    assert_eq!(dec(&t.gamma), "3");
    assert_eq!(dec(&t.k), "12345");
    check(
        &t,
        [
            "77740072682887094495918984458179611775",
            "141940730163511823501708125874144998827",
            "118382976964796824848656863132777",
            "3",
            "209693947012599654108305535429089609007",
            "182715595468524271367743571592936",
            "141940730163511823501708125874144998827",
            "141940730163511823501708125874144998827",
        ],
    );
    assert!(t.valid);
}

#[test]
fn signing_when_k_exceeds_rho_h() {
    let h = BigNum::from_u32(0);
    let t = signature_with(&h, BigNum::from_u32(5), BigNum::from_u32(7)).ok().unwrap();
    check(
        &t,
        [
            "252311745697573439342289107603702091082",
            "136780576304968240269974600271601007936",
            "222359720021816412068452057129983",
            "7",
            "136780576304968240269974600271601007936",
            "1",
            "136780576304968240269974600271601007936",
            "136780576304968240269974600271601007936",
        ],
    );
    assert!(t.valid);
}

#[test]
fn signing_with_smallest_draws() {
    let h = num("1234567890");
    let t = signature_with(&h, BigNum::from_u32(2), BigNum::from_u32(1)).ok().unwrap();
    check(
        &t,
        [
            "106255536821523240706173995793776542098",
            "106255536821523240706173995793776542098",
            "67387445530962880418070887794401",
            "11",
            "223400818482216953982751026458139018279",
            "174812631664722584732527433831638",
            "106255536821523240706173995793776542098",
            "106255536821523240706173995793776542098",
        ],
    );
    assert!(t.valid);
}

#[test]
fn signing_stops_without_private_key() {
    // k - rho h is 1: no integer from 2 on divides it.
    let h = BigNum::from_u32(0);
    match signature_with(&h, BigNum::from_u32(5), BigNum::from_u32(1)) {
        Err(u) => {
            assert_eq!(dec(&u.gamma), "5");
            assert_eq!(dec(&u.k), "1");
        }
        Ok(_) => panic!("k - rho h is 1: signing cannot end"),
    }
}

#[test]
fn signing_stops_on_negative_exponent() {
    // rho h is negative: g cannot be raised to it.
    let h = BigNum::negative_u32(1);
    match signature_with(&h, BigNum::from_u32(3), BigNum::from_u32(12345)) {
        Err(u) => {
            assert_eq!(dec(&u.gamma), "3");
            assert_eq!(dec(&u.k), "12345");
        }
        Ok(_) => panic!("rho h is negative: signing cannot end"),
    }
}

#[test]
fn random_draws_lie_in_range() {
    // A negative hash makes rho h negative, so signing stops right after the
    // draws and returns them, before the search for a private key.
    let h = BigNum::negative_u32(1);
    match signature(&h) {
        Err(u) => {
            let p = BigInt::parse_bytes(b"255211775190703847597530955573826158579", 10).unwrap();
            let q = BigInt::parse_bytes(b"252991020016994668398330411224101", 10).unwrap();
            let gamma = big(&u.gamma);
            let k = big(&u.k);
            assert!(gamma >= BigInt::from(2) && gamma < p - 1);
            assert!(k >= BigInt::from(1) && k < q);
        }
        Ok(_) => panic!("rho h is negative: signing cannot end"),
    }
}

#[test]
fn signing_equation_holds() {
    let q = BigInt::parse_bytes(b"252991020016994668398330411224101", 10).unwrap();
    let h = BigInt::from(1234567890);
    let t = signature_with(&num("1234567890"), BigNum::from_u32(3), BigNum::from_u32(12345)).ok().unwrap();
    let lhs = (big(&t.rho) * &h + big(&t.x) * big(&t.s)) % &q;
    let rhs = big(&t.k) % &q;
    assert_eq!(lhs, rhs);
}
