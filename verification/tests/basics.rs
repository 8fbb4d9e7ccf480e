use cs_course::weekday::{next_weekday, DayOfWeek};
use cs_course::shell::parse_shell_command;
use cs_course::stats::{median, mode};
use cs_course::words::{piglatin, use_editor, TypeEvent};
use cs_course::organize::{
    organize, organize_commands, classify_command, command_from_captures, HrCommand, OrgTable,
};

#[test]
fn test_next_weekday() {
    assert_eq!(next_weekday(DayOfWeek::Thu), DayOfWeek::Fri);
    assert_eq!(next_weekday(DayOfWeek::Fri), DayOfWeek::Mon);
}

#[test]
fn next_weekday_every_day() {
    assert_eq!(next_weekday(DayOfWeek::Sat), DayOfWeek::Mon);
    assert_eq!(next_weekday(DayOfWeek::Sun), DayOfWeek::Mon);
    assert_eq!(next_weekday(DayOfWeek::Mon), DayOfWeek::Tue);
    assert_eq!(next_weekday(DayOfWeek::Tue), DayOfWeek::Wed);
    assert_eq!(next_weekday(DayOfWeek::Wed), DayOfWeek::Thu);
}

#[test]
fn next_weekday_is_never_weekend() {
    let days = [
        DayOfWeek::Sun,
        DayOfWeek::Mon,
        DayOfWeek::Tue,
        DayOfWeek::Wed,
        DayOfWeek::Thu,
        DayOfWeek::Fri,
        DayOfWeek::Sat,
    ];
    for d in days {
        let n = next_weekday(d);
        assert_ne!(n, DayOfWeek::Sat);
        assert_ne!(n, DayOfWeek::Sun);
    }
}

#[test]
fn test_shell() {
    assert_eq!(parse_shell_command("cat file"), vec!["cat".to_string(), "file".to_string()]);
    assert_eq!(
        parse_shell_command("ls 'VirtualBox VMs'"),
        vec!["ls".to_string(), "VirtualBox VMs".to_string()]
    );
    assert_eq!(
        parse_shell_command("ls VirtualBox' 'VMs"),
        vec!["ls".to_string(), "VirtualBox VMs".to_string()]
    );
}

#[test]
fn shell_extra_spaces_and_empty() {
    assert_eq!(parse_shell_command("  echo   a  "), vec!["echo".to_string(), "a".to_string()]);
    assert_eq!(parse_shell_command(""), Vec::<String>::new());
    assert_eq!(parse_shell_command("''"), Vec::<String>::new());
}

#[test]
fn median_examples() {
    assert_eq!(median(vec![1, 3, 3, 6, 7, 8, 9]), Some(6));
    assert_eq!(median(vec![1, 2, 3, 4, 5, 6, 8, 9]), Some(5));
    assert_eq!(median(vec![9, 1, 8, 2, 7, 3, 6]), Some(6));
    assert_eq!(median(vec![]), None);
    assert_eq!(median(vec![-4]), Some(-4));
}

#[test]
fn mode_examples() {
    assert_eq!(mode(vec![3, 1, 3, 1, 2]), Some(1));
    assert_eq!(mode(vec![5, 5, 2]), Some(5));
    assert_eq!(mode(vec![]), None);
    assert_eq!(mode(vec![-7, 4, 4, -7, -7]), Some(-7));
}

#[test]
fn piglatin_examples() {
    assert_eq!(piglatin("happy".to_string()), "appyhay".to_string());
    assert_eq!(piglatin("string".to_string()), "ingstray".to_string());
    assert_eq!(piglatin("explain".to_string()), "explainhay".to_string());
}

#[test]
fn test_editor() {
    assert_eq!(
        use_editor(vec![TypeEvent::Type('a'), TypeEvent::Type('b'), TypeEvent::Backspace]),
        "a".to_string()
    );
    assert_eq!(
        use_editor(vec![
            TypeEvent::Type('a'),
            TypeEvent::Copy,
            TypeEvent::Paste,
            TypeEvent::Paste,
            TypeEvent::Type('b')
        ]),
        "aaab".to_string()
    );
    assert_eq!(use_editor(vec![TypeEvent::Backspace, TypeEvent::Paste]), "".to_string());
}

fn sorted_rows(t: &OrgTable) -> Vec<(String, Vec<String>)> {
    let mut rows = t.rows();
    for row in rows.iter_mut() {
        row.1.sort();
    }
    rows.sort();
    rows
}

#[test]
fn organize_example() {
    let t = organize(vec![
        "Add Amir to Engineering".to_string(),
        "Add Sally to Sales".to_string(),
        "Remove Jeehoon from Sales".to_string(),
        "Move Amir from Engineering to Sales".to_string(),
    ]);
    assert_eq!(
        sorted_rows(&t),
        vec![("Sales".to_string(), vec!["Amir".to_string(), "Sally".to_string()])]
    );
}

#[test]
fn organize_ignores_commands_that_cannot_run() {
    let t = organize(vec![
        "Add Bob to Ops".to_string(),
        "Remove Carol from Ops".to_string(),
        "Move Dave from Ops to Sales".to_string(),
        "Hire Erin".to_string(),
    ]);
    assert_eq!(sorted_rows(&t), vec![("Ops".to_string(), vec!["Bob".to_string()])]);
    let empty = organize(vec!["Add Bob to Ops".to_string(), "Remove Bob from Ops".to_string()]);
    assert_eq!(sorted_rows(&empty), Vec::<(String, Vec<String>)>::new());
}

#[test]
fn classify_reads_the_patterns() {
    match classify_command("Add Amir to Engineering") {
        HrCommand::Add { person, dept } => {
            assert_eq!(person, "Amir".to_string());
            assert_eq!(dept, "Engineering".to_string());
        }
        _ => panic!("expected an Add command"),
    }
    match classify_command("Move Amir from Engineering to Sales") {
        HrCommand::Move { person, from, to } => {
            assert_eq!(person, "Amir".to_string());
            assert_eq!(from, "Engineering".to_string());
            assert_eq!(to, "Sales".to_string());
        }
        _ => panic!("expected a Move command"),
    }
    assert!(matches!(classify_command("Promote Amir"), HrCommand::Ignored));
}

#[test]
fn organize_commands_direct() {
    let t = organize_commands(vec![
        HrCommand::Add { person: "A".to_string(), dept: "X".to_string() },
        HrCommand::Add { person: "B".to_string(), dept: "X".to_string() },
        HrCommand::Remove { person: "A".to_string(), dept: "X".to_string() },
    ]);
    assert_eq!(sorted_rows(&t), vec![("X".to_string(), vec!["B".to_string()])]);
}

#[test]
fn command_from_given_captures() {
    let s = |x: &str| Some(x.to_string());
    match command_from_captures(None, Some(vec![s("Ann"), s("Ops")]), None) {
        HrCommand::Remove { person, dept } => {
            assert_eq!(person, "Ann".to_string());
            assert_eq!(dept, "Ops".to_string());
        }
        _ => panic!("expected a Remove command"),
    }
    assert!(matches!(
        command_from_captures(Some(vec![s("Ann"), None]), None, None),
        HrCommand::Ignored
    ));
    assert!(matches!(
        command_from_captures(Some(vec![s("Ann"), s("Ops")]), Some(vec![s("Bo"), s("HR")]), None),
        HrCommand::Add { .. }
    ));
    match command_from_captures(None, None, Some(vec![s("C"), s("X"), s("Y")])) {
        HrCommand::Move { person, from, to } => {
            assert_eq!((person, from, to), ("C".to_string(), "X".to_string(), "Y".to_string()));
        }
        _ => panic!("expected a Move command"),
    }
    assert!(matches!(command_from_captures(None, None, None), HrCommand::Ignored));
}
