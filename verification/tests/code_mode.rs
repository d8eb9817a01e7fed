use codex_astrbot::code_mode_tools::compact_wait_tool_description;
use codex_astrbot::code_mode_tools::exec_function_description;
use codex_astrbot::code_mode_tools::replace_chars;
use codex_astrbot::code_mode_tools::wait_tool_description;
use codex_astrbot::code_mode_tools::wait_tool_parameters;
use codex_astrbot::code_mode_tools::ParameterKind;
use codex_astrbot::code_mode_tools::ToolParameter;
use codex_astrbot::code_mode_tools::CODE_ARGUMENT_LINE;
use codex_astrbot::code_mode_tools::CODE_MODE_FREEFORM_GRAMMAR;
use codex_astrbot::code_mode_tools::CODE_PARAMETER_DESCRIPTION;
use codex_astrbot::code_mode_tools::RAW_SOURCE_LINE;

const WAIT_DETAILS: &str = "\n  Pass the cell id that `exec` printed.\n";

#[test]
fn create_wait_tool_matches_expected_spec() {
    assert_eq!(
        wait_tool_description("exec", WAIT_DETAILS),
        format!(
            "Waits on a yielded `{}` cell and returns new output or completion.\n{}",
            "exec",
            WAIT_DETAILS.trim()
        )
    );
    assert_eq!(
        wait_tool_parameters(false),
        vec![
            ToolParameter {
                name: "cell_id",
                kind: ParameterKind::String,
                description: Some("Identifier of the running exec cell."),
            },
            ToolParameter {
                name: "max_tokens",
                kind: ParameterKind::Number,
                description: Some("Output token budget for this wait call. Defaults to 10000 tokens."),
            },
            ToolParameter {
                name: "terminate",
                kind: ParameterKind::Boolean,
                description: Some("True stops the running exec cell; false or omitted waits for output."),
            },
            ToolParameter {
                name: "yield_time_ms",
                kind: ParameterKind::Number,
                description: Some("Wait before yielding more output. Defaults to 10000 ms."),
            },
        ]
    );
}

#[test]
fn create_code_mode_tool_matches_expected_spec() {
    assert_eq!(
        CODE_MODE_FREEFORM_GRAMMAR,
        r#"
start: pragma_source | plain_source
pragma_source: PRAGMA_LINE NEWLINE SOURCE
plain_source: SOURCE

PRAGMA_LINE: /[ \t]*\/\/ @exec:[^\r\n]*/
NEWLINE: /\r?\n/
SOURCE: /[\s\S]+/
"#
    );
}

#[test]
fn the_compact_wait_tool_names_the_exec_tool_and_describes_no_parameter() {
    assert_eq!(
        compact_wait_tool_description("exec"),
        "Resume a `exec` cell that returned `Script running with cell ID ...`: returns output since the last yield, or the final result. `terminate: true` stops the cell."
    );
    let parameters = wait_tool_parameters(true);
    let names: Vec<&str> = parameters.iter().map(|p| p.name).collect();
    assert_eq!(names, vec!["cell_id", "max_tokens", "terminate", "yield_time_ms"]);
    assert!(parameters.iter().all(|p| p.description.is_none()));
}

#[test]
fn exec_as_a_function_tool_asks_for_the_code_argument() {
    let description = format!("Runs JavaScript.\n{RAW_SOURCE_LINE}\n- Yields after a while.");
    assert_eq!(
        exec_function_description(&description),
        format!("Runs JavaScript.\n{CODE_ARGUMENT_LINE}\n- Yields after a while.")
    );
    assert_eq!(exec_function_description("Nothing to change."), "Nothing to change.");
    assert!(CODE_PARAMETER_DESCRIPTION.starts_with("Raw JavaScript source."));
}

#[test]
fn replacement_goes_left_to_right_without_overlap() {
    let chars = |s: &str| s.chars().collect::<Vec<char>>();
    let replaced = replace_chars(&chars("aaa-aa"), &chars("aa"), &chars("b"));
    assert_eq!(replaced.iter().collect::<String>(), "aaa-aa".replace("aa", "b"));
    let untouched = replace_chars(&chars("abc"), &chars(""), &chars("x"));
    assert_eq!(untouched.iter().collect::<String>(), "abc");
}
