use fel::lang::ast::Ast;
use fel::lang::error::FurthestError;
use fel::lang::parsers::expr;
use fel::lang::stream::Stream;

/// Parses an expression at the start of `*input` and leaves `*input` at what is left
/// unread after it.
fn parse_next(input: &mut &str) -> Result<Box<Ast>, FurthestError> {
    let stream = Stream::new(input);
    let (end, ast) = expr(&stream, 0)?;
    let offset: usize = input.chars().take(end).map(|c| c.len_utf8()).sum();
    *input = &input[offset..];
    Ok(ast)
}

#[test]
fn test_missing_closing_paren() {
    let mut input = "path_prefix(\"/api\"";
    let result = parse_next(&mut input);
    assert!(result.is_err(), "Should fail with missing closing paren");
}

#[test]
fn test_missing_opening_paren() {
    let mut input = "path_prefix\"/api\")";
    let result = parse_next(&mut input);
    assert!(result.is_err(), "Should fail with missing opening paren");
}

#[test]
fn test_unclosed_string() {
    let mut input = "path_prefix(\"/api)";
    let result = parse_next(&mut input);
    assert!(result.is_err(), "Should fail with unclosed string literal");
}

#[test]
fn test_invalid_uppercase_operator() {
    let mut input = "path_prefix(\"/api\") AND method(\"GET\")";
    let result = parse_next(&mut input);
    // Uppercase AND is parsed as a function name, so parsing succeeds
    // but leaves unparsed input " method(\"GET\")"
    match result {
        Ok(_) => {
            assert!(!input.trim().is_empty(), "Should have unparsed input");
        }
        Err(_) => {
            // Also acceptable if it fails
        }
    }
}

#[test]
fn test_missing_comma_between_args() {
    let mut input = "path_prefix(\"/api\" \"/v1\")";
    let result = parse_next(&mut input);
    assert!(result.is_err(), "Should fail with missing comma between arguments");
}

#[test]
fn test_empty_expression() {
    let mut input = "";
    let result = parse_next(&mut input);
    assert!(result.is_err(), "Should fail with empty expression");
}

#[test]
fn test_just_operator() {
    let mut input = "and";
    let result = parse_next(&mut input);
    assert!(result.is_err(), "Should fail with just an operator");
}

#[test]
fn test_unmatched_opening_paren() {
    let mut input = "(path_prefix(\"/api\")";
    let result = parse_next(&mut input);
    assert!(result.is_err(), "Should fail with unmatched opening paren");
}

#[test]
fn test_unmatched_closing_paren() {
    let mut input = "path_prefix(\"/api\"))";
    let result = parse_next(&mut input);
    // This might succeed but leave input unparsed
    match result {
        Ok(_) => {
            // Check if there's remaining input
            assert!(!input.is_empty(), "Should have remaining unparsed input");
        }
        Err(_) => {
            // Also acceptable to fail
        }
    }
}

#[test]
fn test_missing_function_name() {
    let mut input = "(\"/api\")";
    let result = parse_next(&mut input);
    assert!(result.is_err(), "Should fail with missing function name");
}

#[test]
fn test_empty_function_args() {
    let mut input = "path_prefix()";
    let result = parse_next(&mut input);
    // Empty args should be valid
    assert!(result.is_ok(), "Empty args should be valid");
}

#[test]
fn test_operator_without_right_operand() {
    let mut input = "path_prefix(\"/api\") and";
    let result = parse_next(&mut input);
    // Parser will parse "path_prefix(\"/api\")" and leave " and" unparsed
    match result {
        Ok(_) => {
            assert!(!input.trim().is_empty(), "Should have unparsed input");
        }
        Err(_) => {
            // Also acceptable if it fails
        }
    }
}

#[test]
fn test_operator_without_left_operand() {
    let mut input = "or method(\"GET\")";
    let result = parse_next(&mut input);
    assert!(result.is_err(), "Should fail with operator missing left operand");
}

#[test]
fn test_double_operator() {
    let mut input = "path_prefix(\"/api\") and or method(\"GET\")";
    let result = parse_next(&mut input);
    // Parser parses "path_prefix(\"/api\") and or" as a valid expression
    // where "or" is treated as a function name (even though it's a keyword)
    // It leaves " method(\"GET\")" unparsed
    match result {
        Ok(_) => {
            // This is acceptable - parser leaves unparsed input
            assert!(!input.trim().is_empty(), "Should have unparsed input");
        }
        Err(_) => {
            // Also acceptable if it detects the error
        }
    }
}

#[test]
fn test_invalid_character_in_function_name() {
    let mut input = "path-prefix(\"/api\")";
    let result = parse_next(&mut input);
    // Hyphen might be valid depending on func_name parser
    // This test validates current behavior
    let _ = result;
}

#[test]
fn test_trailing_comma_in_args() {
    let mut input = "path_prefix(\"/api\", \"/v1\",)";
    let result = parse_next(&mut input);
    assert!(result.is_err(), "Should fail with trailing comma");
}

#[test]
fn test_leading_comma_in_args() {
    let mut input = "path_prefix(, \"/api\")";
    let result = parse_next(&mut input);
    assert!(result.is_err(), "Should fail with leading comma");
}

#[test]
fn test_double_quotes_in_string() {
    let mut input = "path_prefix(\"/api\"test\")";
    let result = parse_next(&mut input);
    // Should fail or leave unparsed input
    match result {
        Ok(_) => {
            assert!(!input.is_empty(), "Should have remaining unparsed input");
        }
        Err(_) => {
            // Also acceptable
        }
    }
}

#[test]
fn test_mixed_case_operator() {
    let mut input = "path_prefix(\"/api\") And method(\"GET\")";
    let result = parse_next(&mut input);
    // Mixed-case "And" is parsed as a function name, not an operator
    match result {
        Ok(_) => {
            assert!(!input.trim().is_empty(), "Should have unparsed input");
        }
        Err(_) => {
            // Also acceptable if it fails
        }
    }
}

#[test]
fn test_incomplete_parenthesized_expr() {
    let mut input = "(path_prefix(\"/api\") and";
    let result = parse_next(&mut input);
    assert!(result.is_err(), "Should fail with incomplete parenthesized expression");
}
