use assistant_rs::config::{cascade, Config, DeepspeechConfig};
use assistant_rs::error::ConfigError;
use assistant_rs::modes::{Command, CommandMessage, ModeTree};

fn settings(model: Option<&str>, beam: Option<u16>) -> DeepspeechConfig {
    DeepspeechConfig {
        library_path: None,
        model_path: model.map(|s| s.to_owned()),
        scorer_path: None,
        beam_width: beam,
    }
}

#[test]
fn earlier_settings_win() {
    let merged = settings(Some("first.pbmm"), None).or_else(settings(Some("second.pbmm"), Some(500)));
    assert_eq!(Ok("first.pbmm"), merged.model_path().map_err(|_| ()));
    assert_eq!(Some(500), merged.beam_width().unwrap());
    assert_eq!("libdeepspeech.so", merged.library_path().unwrap());
    assert_eq!(None, merged.scorer_path().unwrap());
    assert!(merged.verify().is_ok());
}

#[test]
fn missing_model_is_an_error() {
    let s = DeepspeechConfig::default();
    assert!(matches!(s.model_path(), Err(ConfigError::NoModel)));
    assert!(matches!(s.verify(), Err(ConfigError::NoModel)));
}

#[test]
fn cascade_combines_in_order() {
    let modes = ModeTree::empty()
        .with_commands(vec![Command::new(
            CommandMessage::from_raw("hi".to_owned()).unwrap(),
            Some("echo hi".to_owned()),
            None,
        )])
        .unwrap();
    let a = Config { deepspeech_config: settings(Some("a"), None), modes };
    let b = Config { deepspeech_config: settings(Some("b"), Some(3)), modes: ModeTree::empty() };
    let c = cascade(vec![a, b]).unwrap();
    assert_eq!("a", c.deepspeech_config.model_path().unwrap());
    assert_eq!(Some(3), c.deepspeech_config.beam_width().unwrap());
    assert!(c.verify().is_ok());
    assert!(matches!(cascade(vec![]).unwrap().verify(), Err(ConfigError::NoModel)));
}
