use rle::codec::{transform, Mode};
use rle::config::{ArgError, Config};

fn args(words: &[&str]) -> Vec<String> {
    words.iter().map(|w| w.to_string()).collect()
}

#[test]
fn no_arguments() {
    assert_eq!(Config::new(&args(&[])).err(), Some(ArgError::NoArguments));
    assert_eq!(Config::new(&args(&["rle"])).err(), Some(ArgError::NoArguments));
}

#[test]
fn path_alone_encodes() {
    let c = Config::new(&args(&["rle", "notes.txt"])).ok().unwrap();
    assert_eq!(c.mode, Mode::Encode);
    assert_eq!(c.path, "notes.txt");
}

#[test]
fn flag_and_path_decodes() {
    let c = Config::new(&args(&["rle", "d", "notes.txt.rle"])).ok().unwrap();
    assert_eq!(c.mode, Mode::Decode);
    assert_eq!(c.path, "notes.txt.rle");
}

#[test]
fn flag_without_path() {
    assert_eq!(Config::new(&args(&["rle", "d"])).err(), Some(ArgError::NoPath));
}

#[test]
fn unknown_flag_is_refused() {
    assert_eq!(
        Config::new(&args(&["rle", "x", "notes.txt"])).err(),
        Some(ArgError::UnknownOption)
    );
}

#[test]
fn extra_argument_after_decode_path() {
    let c = Config::new(&args(&["rle", "d", "a", "b"])).ok().unwrap();
    assert_eq!(c.mode, Mode::Decode);
    assert_eq!(c.path, "a");
}

#[test]
fn output_path_adds_extension() {
    let c = Config::new(&args(&["rle", "a.txt"])).ok().unwrap();
    assert_eq!(c.output_path(), "a.txt.rle");
    let c = Config::new(&args(&["rle", "d", "a.txt.rle"])).ok().unwrap();
    assert_eq!(c.output_path(), "a.txt.rle.dat");
}

#[test]
fn cli_scenario() {
    let contents = vec![3u8, 3, 3];
    let enc = Config::new(&args(&["rle", "three.bin"])).ok().unwrap();
    let written = transform(enc.mode, &contents).unwrap();
    assert_eq!(written, vec![3, 3]);
    let out = enc.output_path();
    assert_eq!(out, "three.bin.rle");

    let dec = Config::new(&args(&["rle", "d", &out])).ok().unwrap();
    assert_eq!(transform(dec.mode, &written), Ok(vec![3, 3, 3]));
    assert_eq!(dec.output_path(), "three.bin.rle.dat");
}
