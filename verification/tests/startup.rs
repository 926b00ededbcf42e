use openssl::asn1::Asn1Time;
use openssl::ec::{EcGroup, EcKey};
use openssl::hash::MessageDigest;
use openssl::nid::Nid;
use openssl::pkey::PKey;
use openssl::x509::{X509NameBuilder, X509};
use simple_proxy::settings::{parse_args, LogLevel, Settings, Warning};
use simple_proxy::tls::{acceptor_of, acceptor_outcome, load_acceptor, tls_files, TlsError};

fn settings(args: &[&str]) -> Settings {
    let mut all = vec!["proxy".to_string()];
    for a in args {
        all.push(a.to_string());
    }
    parse_args(&all)
}

#[test]
fn defaults() {
    for s in [settings(&[]), parse_args(&vec![])] {
        assert_eq!(s.ip, "127.0.0.1");
        assert_eq!(s.port, 8080);
        assert_eq!(s.level, LogLevel::Info);
        assert!(s.warnings.is_empty());
    }
}

#[test]
fn options() {
    for args in [
        ["--ip", "0.0.0.0", "--port", "3128", "--debug"],
        ["-i", "0.0.0.0", "-p", "3128", "-d"],
    ] {
        let s = settings(&args);
        assert_eq!(s.ip, "0.0.0.0");
        assert_eq!(s.port, 3128);
        assert_eq!(s.level, LogLevel::Debug);
        assert!(s.warnings.is_empty());
    }
}

#[test]
fn bare_port() {
    let s = settings(&["9000"]);
    assert_eq!(s.port, 9000);
    let s = settings(&["9000", "-p", "9001", "+9002"]);
    assert_eq!(s.port, 9002);
}

#[test]
fn last_word_counts() {
    let s = settings(&["-i", "a", "1", "-i", "b", "-p", "2"]);
    assert_eq!(s.ip, "b");
    assert_eq!(s.port, 2);
}

#[test]
fn bad_ports() {
    let s = settings(&["9000", "--port", "65536", "-d"]);
    assert_eq!(s.port, 9000);
    assert_eq!(s.level, LogLevel::Debug);
    assert_eq!(s.warnings.len(), 1);
    assert!(matches!(&s.warnings[0], Warning::BadPort(a) if a == "65536"));
}

#[test]
fn unknown_arguments_and_options_without_value() {
    let s = settings(&["what", "--ip"]);
    assert_eq!(s.ip, "127.0.0.1");
    assert_eq!(s.warnings.len(), 2);
    assert!(matches!(&s.warnings[0], Warning::UnknownArgument(a) if a == "what"));
    assert!(matches!(&s.warnings[1], Warning::UnknownArgument(a) if a == "--ip"));
    let s = settings(&["-p"]);
    assert!(matches!(&s.warnings[0], Warning::UnknownArgument(a) if a == "-p"));
    let s = settings(&["--ip", "--debug"]);
    assert_eq!(s.ip, "--debug");
    assert_eq!(s.level, LogLevel::Info);
}

#[test]
fn addresses() {
    let s = settings(&["-i", "nowhere"]).check_address(false);
    assert_eq!(s.ip, "127.0.0.1");
    assert!(matches!(&s.warnings[0], Warning::BadAddress(a) if a == "nowhere"));
    let s = settings(&["-i", "::1"]).check_address(true);
    assert_eq!(s.ip, "::1");
    assert!(s.warnings.is_empty());
}

#[test]
fn certificate_files() {
    assert_eq!(tls_files(None, None), ("cert.pem".to_string(), "key.pem".to_string()));
    assert_eq!(
        tls_files(Some("a".to_string()), Some("".to_string())),
        ("a".to_string(), "".to_string())
    );
}

fn certificate_and_key() -> (Vec<u8>, Vec<u8>) {
    let group = EcGroup::from_curve_name(Nid::X9_62_PRIME256V1).unwrap();
    let key = PKey::from_ec_key(EcKey::generate(&group).unwrap()).unwrap();
    let mut name = X509NameBuilder::new().unwrap();
    name.append_entry_by_text("CN", "proxy.example").unwrap();
    let name = name.build();
    let mut builder = X509::builder().unwrap();
    builder.set_version(2).unwrap();
    builder.set_subject_name(&name).unwrap();
    builder.set_issuer_name(&name).unwrap();
    builder.set_pubkey(&key).unwrap();
    builder.set_not_before(&Asn1Time::days_from_now(0).unwrap()).unwrap();
    builder.set_not_after(&Asn1Time::days_from_now(1).unwrap()).unwrap();
    builder.sign(&key, MessageDigest::sha256()).unwrap();
    (builder.build().to_pem().unwrap(), key.private_key_to_pem_pkcs8().unwrap())
}

#[test]
fn acceptor_from_certificate_and_key() {
    let (cert, key) = certificate_and_key();
    assert!(load_acceptor(&cert, &key).is_ok());
}

#[test]
fn no_acceptor_without_pkcs8_key() {
    let (cert, key) = certificate_and_key();
    assert!(matches!(load_acceptor(&cert, &cert), Err(TlsError::BadIdentity(_))));
    assert!(matches!(load_acceptor(&cert, b""), Err(TlsError::BadIdentity(_))));
    assert!(matches!(load_acceptor(&cert, &key[1..]), Err(TlsError::BadIdentity(_))));
}

#[test]
fn no_acceptor_without_certificate() {
    let (_, key) = certificate_and_key();
    assert!(matches!(load_acceptor(b"", &key), Err(TlsError::BadIdentity(_))));
    assert!(matches!(load_acceptor(b"none", &key), Err(TlsError::BadIdentity(_))));
}

#[test]
fn failures_keep_their_place() {
    let (cert, key) = certificate_and_key();
    let error = || native_tls::Identity::from_pkcs8(b"", b"").err().unwrap();
    assert!(matches!(acceptor_of(Err(error())), Err(TlsError::BadIdentity(_))));
    assert!(matches!(acceptor_outcome(Err(error())), Err(TlsError::BadAcceptor(_))));
    assert!(acceptor_of(native_tls::Identity::from_pkcs8(&cert, &key)).is_ok());
}
