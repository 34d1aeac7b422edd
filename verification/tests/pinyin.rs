use findex::pinyin::{get_pinyin_initials, has_chinese, match_pinyin};

#[test]
fn test_pinyin_initials() {
    assert_eq!(get_pinyin_initials("报告"), "bg");
    assert_eq!(get_pinyin_initials("测试"), "cs");
    assert_eq!(get_pinyin_initials("文档"), "wd");
}

#[test]
fn test_match_pinyin() {
    assert!(match_pinyin("报告.docx", "bg"));
    assert!(match_pinyin("测试文档.txt", "cswd"));
    assert!(!match_pinyin("报告.docx", "cs"));
}

#[test]
fn test_has_chinese() {
    assert!(has_chinese("报告"));
    assert!(!has_chinese("report"));
}

#[test]
fn initials_drop_unmapped_characters() {
    assert_eq!(get_pinyin_initials("报告2024.docx"), "bg");
    assert_eq!(get_pinyin_initials("abc"), "");
    assert!(!match_pinyin("report.docx", "r"));
}

#[test]
fn pinyin_query_is_case_insensitive() {
    assert!(match_pinyin("报告.docx", "BG"));
    assert!(match_pinyin("报告.docx", ""));
}
