//! Tests for the key=value metric-argument parser and the parsed command
//! shapes.

use keywhisker::cli::{AnalysisArgs, Cli, Commands, parse_key_val};
use keywhisker::search::GenerationStrategy;
use keywhisker::EngineError;

#[test]
fn parses_key_and_positive_value() {
    assert_eq!(parse_key_val("sfb=3"), Ok(("sfb".to_string(), 3)));
    assert_eq!(parse_key_val("rolls=+12"), Ok(("rolls".to_string(), 12)));
}

#[test]
fn parses_negative_and_extreme_values() {
    assert_eq!(parse_key_val("alt=-5"), Ok(("alt".to_string(), -5)));
    assert_eq!(parse_key_val("a=32767"), Ok(("a".to_string(), 32767)));
    assert_eq!(parse_key_val("a=-32768"), Ok(("a".to_string(), -32768)));
}

#[test]
fn splits_at_the_first_separator() {
    assert_eq!(parse_key_val("a=b=1").err(), Some(EngineError::InvalidKeyVal));
    assert_eq!(parse_key_val("=7"), Ok(("".to_string(), 7)));
}

#[test]
fn rejects_missing_separator_and_bad_numbers() {
    assert_eq!(parse_key_val("nokey").err(), Some(EngineError::InvalidKeyVal));
    assert_eq!(parse_key_val("k=").err(), Some(EngineError::InvalidKeyVal));
    assert_eq!(parse_key_val("k=12a").err(), Some(EngineError::InvalidKeyVal));
    assert_eq!(parse_key_val("k=32768").err(), Some(EngineError::InvalidKeyVal));
    assert_eq!(parse_key_val("k=-32769").err(), Some(EngineError::InvalidKeyVal));
    assert_eq!(parse_key_val("k=-").err(), Some(EngineError::InvalidKeyVal));
    assert_eq!(parse_key_val("k=+").err(), Some(EngineError::InvalidKeyVal));
    assert_eq!(parse_key_val("k= 3").err(), Some(EngineError::InvalidKeyVal));
}

#[test]
fn command_shapes_hold_plain_data() {
    let cli = Cli {
        command: Some(Commands::RunGeneration {
            runs: 2,
            strategy: GenerationStrategy::GreedyDeterministic,
            char_set: "abcdefghij".to_string(),
            metrics: vec![("pw".to_string(), 1)],
            stdout: true,
            pin: 3,
            analysis_args: AnalysisArgs {
                corpus: "english".to_string(),
                keyboard: "matrix".to_string(),
            },
        }),
    };
    match cli.command {
        Some(Commands::RunGeneration { runs, pin, stdout, metrics, .. }) => {
            assert_eq!(runs, 2);
            assert_eq!(pin, 3);
            assert!(stdout);
            assert_eq!(metrics[0].1, 1);
        }
        _ => panic!("wrong command shape"),
    }
}
