use bos_loader::resolver::replace_placeholders;
use bos_loader::table::{read_replacements, ReplacementError, ReplacementTable};

#[test]
fn test_replace_placeholders() {
    let input_string = String::from("<div> This is ${REPL_PLACEHOLDER1} </div> <Widget src=\"${REPL_ACCOUNT}/widget/SomeWidget\"> <div>${REPL_PLACEHOLDER2}</div>");
    let expected_output = String::from("<div> This is value1 </div> <Widget src=\"MY_ACCOUNT/widget/SomeWidget\"> <div>value2</div>");

    let mut replacements = ReplacementTable::new();
    replacements.insert("${REPL_PLACEHOLDER1}".to_owned(), "value1".to_owned());
    replacements.insert("${REPL_PLACEHOLDER2}".to_owned(), "value2".to_owned());

    let modified_string = replace_placeholders(&input_string, "MY_ACCOUNT", &replacements);

    assert_eq!(modified_string, expected_output);
}

#[test]
fn test_replace_placeholders_empty_map() {
    let input_string = String::from("<div> This is ${REPL_PLACEHOLDER1} </div> <Widget src=\"${REPL_ACCOUNT}/widget/SomeWidget\"> <div>${REPL_PLACEHOLDER2}</div>");
    let expected_output = String::from("<div> This is ${REPL_PLACEHOLDER1} </div> <Widget src=\"MY_ACCOUNT/widget/SomeWidget\"> <div>${REPL_PLACEHOLDER2}</div>");

    let modified_string = replace_placeholders(&input_string, "MY_ACCOUNT", &ReplacementTable::new());

    assert_eq!(modified_string, expected_output);
}

#[test]
fn test_replace_placeholders_wrong_notation() {
    let input_string =
        String::from("${REPL_ACCOUNT REPL_ACCOUNT $REPL_ACCOUNT ${WRONG_PLACEHOLDER}");
    let expected_output = String::from(input_string.clone());

    let mut replacements = ReplacementTable::new();
    replacements.insert("${REPL_PLACEHOLDER1}".to_owned(), "value1".to_owned());
    replacements.insert("${REPL_PLACEHOLDER2}".to_owned(), "value2".to_owned());

    let modified_string = replace_placeholders(&input_string, "MY_ACCOUNT", &replacements);

    assert_eq!(modified_string, expected_output);
}

#[test]
fn test_replace_placeholders_no_tokens_identity() {
    let input_string = String::from("plain text without any token");

    let modified_string = replace_placeholders(&input_string, "acc", &ReplacementTable::new());

    assert_eq!(modified_string, input_string);
}

#[test]
fn test_reserved_token_always_account() {
    // Even a table that tries to bind the reserved token itself is overridden.
    let mut replacements = ReplacementTable::new();
    replacements.insert("${REPL_ACCOUNT}".to_owned(), "hijacked".to_owned());

    let modified_string = replace_placeholders("${REPL_ACCOUNT}", "acc", &replacements);

    assert_eq!(modified_string, "acc");
}

#[test]
fn test_read_replacements() {
    let contents = "{\"REPL_PLACEHOLDER1\": \"value1\", \"REPL_PLACEHOLDER2\": \"value2\"}";

    let map = read_replacements(contents).unwrap();

    let modified = replace_placeholders("${REPL_PLACEHOLDER1}/${REPL_PLACEHOLDER2}", "acc", &map);
    assert_eq!(modified, "value1/value2");
}

#[test]
fn test_read_replacements_invalid_json() {
    let contents = "not a json object";

    let result = read_replacements(contents);

    assert_eq!(result.unwrap_err(), ReplacementError::InvalidJson);
}

#[test]
fn test_read_replacements_array_rejected() {
    let contents = "[\"REPL_PLACEHOLDER1\", \"value1\"]";

    let result = read_replacements(contents);

    assert_eq!(result.unwrap_err(), ReplacementError::InvalidJson);
}

#[test]
fn test_read_replacements_repl_account() {
    let contents = "{\"REPL_ACCOUNT\": \"someone\"}";

    let result = read_replacements(contents);

    assert_eq!(result.unwrap_err(), ReplacementError::ReservedKey);
}
