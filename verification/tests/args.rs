use rs_face::args::{parse_train, take_str, Algorithm, ArgError};
use rs_face::text::IntErrorKind;

fn v(args: &[&str]) -> Vec<String> {
    args.iter().map(|s| s.to_string()).collect()
}

#[test]
fn train_full_options() {
    let a = v(&["--dataset", "faces", "-o", "m.bin", "-a", "LBPH", "-k", "+12", "--size", "64x80"]);
    let o = parse_train(&a).unwrap().unwrap();
    assert_eq!(o.dataset, "faces");
    assert_eq!(o.model_out, "m.bin");
    assert_eq!(o.algorithm, Algorithm::LBPH);
    assert_eq!(o.num_components, 12);
    assert_eq!(o.size, (64, 80));
}

#[test]
fn train_defaults() {
    let o = parse_train(&v(&["-d", "x"])).unwrap().unwrap();
    assert_eq!(o.model_out, "face_model.bin");
    assert_eq!(o.algorithm, Algorithm::Eigenfaces);
    assert_eq!(o.num_components, 50);
    assert_eq!(o.size, (92, 112));
}

#[test]
fn train_size_without_one_x_is_ignored() {
    let o = parse_train(&v(&["-d", "x", "--size", "64"])).unwrap().unwrap();
    assert_eq!(o.size, (92, 112));
    let o = parse_train(&v(&["-d", "x", "--size", "1x2x3"])).unwrap().unwrap();
    assert_eq!(o.size, (92, 112));
}

#[test]
fn train_errors() {
    assert_eq!(parse_train(&v(&[])).unwrap_err(), ArgError::MissingDataset);
    assert_eq!(parse_train(&v(&["-d"])).unwrap_err(), ArgError::MissingValue(0));
    assert_eq!(parse_train(&v(&["-d", "x", "--bogus"])).unwrap_err(), ArgError::UnknownArg(2));
    assert_eq!(parse_train(&v(&["-a", "svm"])).unwrap_err(), ArgError::UnknownAlgorithm(1));
    assert_eq!(
        parse_train(&v(&["-k", "12a"])).unwrap_err(),
        ArgError::BadNumber(IntErrorKind::InvalidDigit)
    );
    assert_eq!(
        parse_train(&v(&["--size", "x5"])).unwrap_err(),
        ArgError::BadNumber(IntErrorKind::Empty)
    );
    assert_eq!(parse_train(&v(&["-d", ""])).unwrap_err(), ArgError::MissingDataset);
}

#[test]
fn train_help_stops_parsing() {
    assert!(parse_train(&v(&["-h", "--bogus"])).unwrap().is_none());
}

#[test]
fn algorithm_names_ignore_case() {
    assert_eq!(Algorithm::from_str("EigenFaces"), Ok(Algorithm::Eigenfaces));
    assert_eq!(Algorithm::from_str("PCA"), Ok(Algorithm::Eigenfaces));
    assert_eq!(Algorithm::from_str("lda"), Ok(Algorithm::Fisherfaces));
    assert_eq!(Algorithm::from_str("Svm"), Err("Svm".to_string()));
}

#[test]
fn take_str_advances_or_fails() {
    let a = v(&["--fps", "2"]);
    let mut i = 0;
    assert_eq!(take_str(&a, &mut i), Ok("2".to_string()));
    assert_eq!(i, 1);
    let mut j = 1;
    assert_eq!(take_str(&a, &mut j), Err("2".to_string()));
    assert_eq!(j, 1);
}

fn argv(a: &[&str]) -> Vec<String> {
    a.iter().map(|s| s.to_string()).collect()
}

#[test]
fn benchmark_arguments() {
    let o = rs_face::args::parse_benchmark(&argv(&[
        "--dataset", "./datasets", "--algorithm", "lbph", "--folds", "3", "--mode", "verification",
        "--max-pairs", "200", "--seed", "7", "--size", "46x56", "--out", "r.md",
    ]))
    .unwrap()
    .unwrap();
    assert_eq!(o.dataset, "./datasets");
    assert_eq!(o.algorithm, "lbph");
    assert_eq!(o.mode, "verification");
    assert_eq!((o.folds, o.max_pairs, o.seed, o.size), (3, 200, 7, (46, 56)));
    assert_eq!(o.out, Some("r.md".to_string()));
    let d = rs_face::args::parse_benchmark(&argv(&["-d", "x"])).unwrap().unwrap();
    assert_eq!((d.mode.as_str(), d.algorithm.as_str(), d.folds, d.max_pairs, d.seed, d.size), ("both", "eigenfaces", 5, 2000, 42, (92, 112)));
    assert_eq!(d.out, None);
}

#[test]
fn benchmark_argument_errors() {
    assert_eq!(rs_face::args::parse_benchmark(&argv(&["--folds", "3"])).err(), Some(ArgError::MissingDataset));
    assert_eq!(rs_face::args::parse_benchmark(&argv(&["-d", "x", "--seed"])).err(), Some(ArgError::MissingValue(2)));
    assert_eq!(rs_face::args::parse_benchmark(&argv(&["-d", "x", "--bogus", "1"])).err(), Some(ArgError::UnknownArg(2)));
    assert_eq!(
        rs_face::args::parse_benchmark(&argv(&["-d", "x", "--folds", "three"])).err(),
        Some(ArgError::BadNumber(IntErrorKind::InvalidDigit))
    );
    assert!(rs_face::args::parse_benchmark(&argv(&["--help", "--bogus"])).unwrap().is_none());
    assert_eq!(rs_face::args::parse_size("46x56"), Some(Ok((46, 56))));
    assert_eq!(rs_face::args::parse_size("46"), None);
    assert_eq!(rs_face::args::parse_size("ax5"), Some(Err(IntErrorKind::InvalidDigit)));
}
