use eventcv_core::model::{
    check_inputs, check_outputs, ensure_runtime, first_input, probe_runtime, runtime_version,
    ModelError, Port, Probe,
};

fn port(name: &str) -> Port {
    Port {
        name: name.to_owned(),
        shape: vec![1, -1],
        dtype: "float32".to_owned(),
    }
}

fn not_opened() -> Probe {
    Probe::NotOpened {
        target: "lib.so".to_owned(),
        error: "no such file".to_owned(),
    }
}

#[test]
fn errors_have_their_texts() {
    let texts = [
        (ModelError::Load("a".to_owned()), "could not load the ONNX model: a"),
        (ModelError::Run("b".to_owned()), "inference failed: b"),
        (ModelError::UnsupportedOutput("c".to_owned()), "unsupported model output: c"),
        (ModelError::RuntimeMissing("d".to_owned()), "d"),
    ];
    for (error, text) in texts {
        assert!(error.message().ends_with(text), "{}", error.message());
    }
}

#[test]
fn inputs_are_checked_by_name() {
    let ports = [port("events"), port("state")];
    check_inputs(&ports, &["state".to_owned()]).unwrap();
    let error = check_inputs(&ports, &["other".to_owned()]).unwrap_err();
    assert!(matches!(&error, ModelError::Run(m) if m.contains("other") && m.contains("events")));
    assert!(matches!(check_inputs(&ports, &[]), Err(ModelError::Run(_))));
    assert_eq!(first_input(&ports).unwrap(), "events");
    assert!(first_input(&[]).is_err());
}

#[test]
fn outputs_must_all_be_there() {
    let ports = [port("a"), port("b")];
    check_outputs(&ports, &[true, true]).unwrap();
    match check_outputs(&ports, &[true, false]) {
        Err(ModelError::UnsupportedOutput(text)) => {
            assert_eq!(text, "b is missing from the result")
        }
        other => panic!("expected a missing output, got {other:?}"),
    }
}

#[test]
fn a_runtime_is_probed() {
    assert_eq!(
        probe_runtime(&not_opened()).unwrap_err(),
        "could not open lib.so (no such file)"
    );
    assert_eq!(runtime_version(&not_opened()), None);
    let target = || "lib.so".to_owned();
    for probe in [
        Probe::NoEntry { target: target() },
        Probe::NoBase { target: target() },
        Probe::TooOld { target: target(), version: "1.2.0".to_owned(), api: 22 },
    ] {
        assert!(probe_runtime(&probe).unwrap_err().starts_with("lib.so"));
        match ensure_runtime(&probe) {
            Err(ModelError::RuntimeMissing(text)) => {
                assert!(text.contains("ORT_DYLIB_PATH"), "{text}")
            }
            other => panic!("expected a missing runtime, got {other:?}"),
        }
    }
    let usable = Probe::Usable { version: "1.22.0".to_owned() };
    assert_eq!(runtime_version(&usable), Some("1.22.0".to_owned()));
    ensure_runtime(&usable).unwrap();
}
