use window_funnel::statements::{database_name, database_options};
use window_funnel::Error;

#[test]
fn database_name_takes_first_identifier() {
    let idents = vec!["mydb".to_string(), "ignored".to_string()];
    assert_eq!(database_name(&idents).unwrap(), "mydb");
}

#[test]
fn database_name_rejects_empty_object_name() {
    let idents: Vec<String> = Vec::new();
    assert_eq!(database_name(&idents).err().unwrap(), Error::SyntaxException);
}

#[test]
fn database_options_lowercase_names_keep_values() {
    let options = vec![
        ("Fast".to_string(), "1".to_string()),
        ("ENGINE".to_string(), "Local".to_string()),
        ("plain".to_string(), "x".to_string()),
    ];
    let out = database_options(&options);
    assert_eq!(
        out,
        vec![
            ("fast".to_string(), "1".to_string()),
            ("engine".to_string(), "Local".to_string()),
            ("plain".to_string(), "x".to_string()),
        ]
    );
}

#[test]
fn database_options_empty() {
    let options: Vec<(String, String)> = Vec::new();
    assert!(database_options(&options).is_empty());
}
