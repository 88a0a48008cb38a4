use cfgreader::cfg::CfgLine;
use cfgreader::cfg::CfgReader;
use cfgreader::cfg::StringCfgReader;
use cfgreader::cfg::parse_cfg_line;
use cfgreader::value::CfgType;

fn record(name: &str, value: CfgType) -> CfgLine {
    CfgLine { name: name.to_string(), value }
}

#[test]
fn a_plain_assignment_parses() {
    assert_eq!(
        parse_cfg_line("x = 5\n"),
        Some(record("x", CfgType::IntNumber(5)))
    );
}

#[test]
fn comments_are_stripped_before_parsing() {
    assert_eq!(
        parse_cfg_line("x = 5 # comment\n"),
        Some(record("x", CfgType::IntNumber(5)))
    );
    assert_eq!(parse_cfg_line("# x = 5\n"), None);
    assert_eq!(
        parse_cfg_line("a=b#=c\n"),
        Some(record("a", CfgType::Literal("b".to_string())))
    );
}

#[test]
fn only_exactly_one_equals_sign_is_accepted() {
    assert_eq!(parse_cfg_line("no equals here\n"), None);
    assert_eq!(parse_cfg_line("a = b = c\n"), None);
    assert_eq!(parse_cfg_line("\n"), None);
    assert_eq!(parse_cfg_line(""), None);
}

#[test]
fn an_unclassifiable_value_rejects_the_line() {
    assert_eq!(parse_cfg_line("x = abc123\n"), None);
    assert_eq!(parse_cfg_line("x =\n"), None);
}

#[test]
fn an_empty_name_is_accepted() {
    assert_eq!(
        parse_cfg_line(" = 5\n"),
        Some(record("", CfgType::IntNumber(5)))
    );
}

#[test]
fn end_to_end_scenario() {
    let text = "width = 800 # pixels\n\
                name = \"main\"\n\
                ratio = 1.5\n\
                bad line without equals\n\
                mode=fast\n"
        .to_string();
    let mut reader = StringCfgReader::from_text(&text);
    assert_eq!(
        reader.get_cfg_line(),
        Some(record("width", CfgType::IntNumber(800)))
    );
    assert_eq!(
        reader.get_cfg_line(),
        Some(record("name", CfgType::String("main".to_string())))
    );
    assert_eq!(
        reader.get_cfg_line(),
        Some(record("ratio", CfgType::FloatNumber("1.5".to_string())))
    );
    assert_eq!(
        reader.get_cfg_line(),
        Some(record("mode", CfgType::Literal("fast".to_string())))
    );
    assert_eq!(reader.get_cfg_line(), None);
}

#[test]
fn an_exhausted_reader_keeps_yielding_nothing() {
    let text = "x = 1\n".to_string();
    let mut reader = StringCfgReader::from_text(&text);
    assert_eq!(
        reader.get_cfg_line(),
        Some(record("x", CfgType::IntNumber(1)))
    );
    for _ in 0..5 {
        assert_eq!(reader.get_cfg_line(), None);
    }
}

#[test]
fn a_reader_over_only_garbage_yields_nothing() {
    let text = "# just a comment\n\nnothing here\na = b = c\n".to_string();
    let mut reader = StringCfgReader::from_text(&text);
    assert_eq!(reader.get_cfg_line(), None);
}
