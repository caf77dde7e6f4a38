use labworks::canvas::{new_canvas, set_pixels};
use labworks::students::{oldest_and_youngest, parse_student_line, Student};
use labworks::terminal::{Command, CountCommand, Outcome, PingCommand, Terminal, TimesCommand};

fn student(name: &str, phone: &str, age: u32) -> Student {
    Student { name: String::from(name), phone: String::from(phone), age }
}

#[test]
fn student_lines() {
    let (s, ok) = parse_student_line("Ana,0722,21").unwrap();
    assert_eq!((s.name.as_str(), s.phone.as_str(), s.age, ok), ("Ana", "0722", 21, true));
    let (s, ok) = parse_student_line("Bo,1, 42 \r").unwrap();
    assert_eq!((s.age, ok), (42, true));
    let (s, ok) = parse_student_line("Cy,2,+7,extra").unwrap();
    assert_eq!((s.age, ok), (7, true));
    let (s, ok) = parse_student_line("Di,3,old").unwrap();
    assert_eq!((s.age, ok), (0, false));
    let (s, ok) = parse_student_line("Ed,4,4294967296").unwrap();
    assert_eq!((s.age, ok), (0, false));
    let (s, ok) = parse_student_line("Fi,5,4294967295").unwrap();
    assert_eq!((s.age, ok), (u32::MAX, true));
    assert!(parse_student_line("only,two").is_none());
}

#[test]
fn age_parsing_matches_std() {
    for field in ["12", "+12", "-1", "", "+", " 3", "0012", "1_0", "99999999999"] {
        let line = format!("n,p,{}", field);
        let (s, ok) = parse_student_line(&line).unwrap();
        let std = field.trim().parse::<u32>();
        assert_eq!(ok, std.is_ok(), "{}", field);
        assert_eq!(s.age, std.unwrap_or(0), "{}", field);
    }
}

#[test]
fn oldest_and_youngest_students() {
    let list = vec![student("a", "1", 20), student("b", "2", 30), student("c", "3", 30), student("d", "4", 18)];
    let (o, y) = oldest_and_youngest(&list);
    assert_eq!((o.name.as_str(), o.age), ("b", 30));
    assert_eq!((y.name.as_str(), y.age), ("d", 18));
    for s in &list {
        assert!(s.age <= o.age && y.age <= s.age);
    }
}

#[test]
fn extremes_of_empty_and_out_of_range_lists() {
    let (o, y) = oldest_and_youngest(&Vec::new());
    assert_eq!((o.name.as_str(), o.age, y.age), ("", 0, 1000));
    let (o, y) = oldest_and_youngest(&vec![student("old", "", 2000), student("zero", "", 0)]);
    assert_eq!((o.name.as_str(), y.name.as_str()), ("old", "zero"));
    let (o, y) = oldest_and_youngest(&vec![student("x", "", 1500)]);
    assert_eq!((o.name.as_str(), y.name.as_str(), y.age), ("x", "", 1000));
}

#[test]
fn canvas_starts_blank_and_is_not_changed_by_set_pixels() {
    let c = new_canvas();
    assert!(c.canvas.iter().all(|row| row.iter().all(|&ch| ch == ' ')));
    set_pixels(c, &[(0, 0, b'#'), (54, 99, b'*'), (60, 0, b'!')]);
    assert_eq!(c.canvas[0][0], ' ');
    assert_eq!(c.canvas[54][99], ' ');
}

fn terminal() -> Terminal {
    let mut t = Terminal::new();
    t.register(Command::Ping(PingCommand));
    t.register(Command::Count(CountCommand));
    t.register(Command::Times(TimesCommand::new()));
    t
}

#[test]
fn commands_run_by_name() {
    let mut t = terminal();
    assert!(matches!(t.run_line("ping"), Outcome::Pong));
    assert!(matches!(t.run_line("  COUNT a b c "), Outcome::Counted(3)));
    assert!(matches!(t.run_line("times"), Outcome::CalledTimes(1)));
    assert!(matches!(t.run_line("Times x"), Outcome::CalledTimes(2)));
    assert!(matches!(t.run_line("   "), Outcome::Blank));
    match t.run_line("Jump now") {
        Outcome::Unknown(name) => assert_eq!(name, "jump"),
        other => panic!("{:?}", other),
    }
    assert!(matches!(t.run_line("STOP"), Outcome::Stop));
}

#[test]
fn registering_again_replaces_the_command() {
    let mut t = terminal();
    t.run_line("times");
    t.register(Command::Times(TimesCommand { count: 41 }));
    assert!(matches!(t.run_line("times"), Outcome::CalledTimes(42)));
    assert_eq!(t.get(&String::from("times")), Some(Command::Times(TimesCommand { count: 42 })));
}

#[test]
fn times_refuses_to_overflow() {
    let mut t = Terminal::new();
    t.register(Command::Times(TimesCommand { count: u32::MAX }));
    assert!(matches!(t.run_line("times"), Outcome::TimesOverflow));
}

#[test]
fn run_stops_at_stop() {
    let mut t = terminal();
    let out = t.run("ping\n\ntimes\nunknown\nstop\nping\n");
    assert_eq!(out.len(), 5);
    assert!(matches!(out[0], Outcome::Pong));
    assert!(matches!(out[1], Outcome::Blank));
    assert!(matches!(out[2], Outcome::CalledTimes(1)));
    assert!(matches!(out[3], Outcome::Unknown(_)));
    assert!(matches!(out[4], Outcome::Stop));
}

#[test]
fn command_names() {
    assert_eq!(Command::Ping(PingCommand).get_name(), "ping");
    assert_eq!(Command::Count(CountCommand).get_name(), "count");
    assert_eq!(TimesCommand::new().get_name(), "times");
    let mut tc = TimesCommand::new();
    assert!(matches!(tc.exec(0), Outcome::CalledTimes(1)));
    assert_eq!(tc.count, 1);
}
