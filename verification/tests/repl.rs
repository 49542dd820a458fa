use brad_qe::repl::{Command, DEFAULT_SEED};

#[test]
fn each_command_is_read_from_its_word() {
    assert_eq!(Command::from_str(".help"), Ok(Command::Help));
    assert_eq!(Command::from_str(".tables"), Ok(Command::ListTables));
    assert_eq!(Command::from_str(".schema"), Ok(Command::ShowSchema));
    assert_eq!(Command::from_str(".regcsv"), Ok(Command::RegisterCsv));
    assert_eq!(Command::from_str(".regparquet"), Ok(Command::RegisterParquet));
    assert_eq!(Command::from_str(".run"), Ok(Command::RunQuery));
    assert_eq!(Command::from_str(".generate"), Ok(Command::Generate));
}

#[test]
fn other_words_are_no_command() {
    assert_eq!(Command::from_str(""), Err(()));
    assert_eq!(Command::from_str("help"), Err(()));
    assert_eq!(Command::from_str(".Help"), Err(()));
    assert_eq!(Command::from_str(".run "), Err(()));
    assert_eq!(Command::from_str(".quit"), Err(()));
}

#[test]
fn commands_ask_for_their_arguments() {
    assert!(Command::Help.is_complete(1));
    assert!(Command::ListTables.is_complete(1));
    assert!(!Command::ShowSchema.is_complete(1));
    assert!(Command::ShowSchema.is_complete(2));
    assert!(!Command::RegisterCsv.is_complete(1));
    assert!(Command::RegisterCsv.is_complete(2));
    assert!(!Command::RegisterParquet.is_complete(1));
    assert!(Command::RegisterParquet.is_complete(3));
    assert!(!Command::RunQuery.is_complete(1));
    assert!(Command::RunQuery.is_complete(5));
    assert!(!Command::Generate.is_complete(2));
    assert!(Command::Generate.is_complete(3));
    assert!(Command::Generate.is_complete(4));
}

#[test]
fn default_seed_is_forty_two() {
    assert_eq!(DEFAULT_SEED, 42);
}
