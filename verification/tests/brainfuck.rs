use misclab_core::brainfuck::{brainloller_cmd, decode_picture, ook_to_bf, run_bf, RgbGrid};

fn run(src: &str) -> String {
    String::from_utf8_lossy(&run_bf(src, b"", 20_000_000).unwrap()).into_owned()
}

#[test]
fn hello_world() {
    let hw = "++++++++[>++++[>++>+++>+++>+<<<<-]>+>+>->>+[<]<-]>>.>---.+++++++..+++.>>.<-.<.+++.------.--------.>>+.>++.";
    assert_eq!(run(hw), "Hello World!\n");
}

#[test]
fn single_char() {
    assert_eq!(run("++++++++[>++++++++<-]>+."), "A");
}

#[test]
fn ook_translation() {
    let ook = "Ook. Ook? Ook? Ook. Ook. Ook. Ook! Ook! Ook! Ook. Ook. Ook! Ook! Ook? Ook? Ook!";
    assert_eq!(ook_to_bf(ook).unwrap(), "><+-.,[]");
}

#[test]
fn ook_runs_to_upper_a() {
    let bf = "++++++++[>++++++++<-]>+.";
    let ook: String = bf
        .chars()
        .map(|c| match c {
            '>' => "Ook. Ook? ",
            '<' => "Ook? Ook. ",
            '+' => "Ook. Ook. ",
            '-' => "Ook! Ook! ",
            '.' => "Ook! Ook. ",
            ',' => "Ook. Ook! ",
            '[' => "Ook! Ook? ",
            ']' => "Ook? Ook! ",
            _ => "",
        })
        .collect();
    let translated = ook_to_bf(&ook).unwrap();
    assert_eq!(run(&translated), "A");
}

#[test]
fn ook_errors() {
    assert_eq!(ook_to_bf("no words here").unwrap_err(), "未找到任何 Ook! 记号。");
    assert_eq!(ook_to_bf("Ook. Ook? Ook.").unwrap_err(), "Ook! 记号数为奇数，无法配对。");
    assert_eq!(ook_to_bf("Ook? Ook?").unwrap_err(), "非法的 Ook! 记号对。");
}

#[test]
fn bf_input_and_wrapping() {
    // echo two input bytes, the second incremented; missing input reads 0
    assert_eq!(run_bf(",.,+.,.", b"ab", 100).unwrap(), vec![b'a', b'c', 0]);
    // 0 - 1 wraps to 255; moving left from cell 0 wraps to the last cell
    assert_eq!(run_bf("-.<+.", b"", 100).unwrap(), vec![255, 1]);
}

#[test]
fn bf_errors() {
    assert_eq!(run_bf("[", b"", 100).unwrap_err(), "方括号不匹配");
    assert_eq!(run_bf("]", b"", 100).unwrap_err(), "方括号不匹配");
    assert_eq!(run_bf("+[]", b"", 1000).unwrap_err(), "执行步数超限（可能死循环）");
    // exactly enough steps succeeds, one fewer fails
    assert_eq!(run_bf("+++.", b"", 4).unwrap(), vec![3]);
    assert!(run_bf("+++.", b"", 3).is_err());
}

#[test]
fn brainloller_colours() {
    assert_eq!(brainloller_cmd(255, 0, 0), Some(0));
    assert_eq!(brainloller_cmd(0, 128, 128), Some(9));
    assert_eq!(brainloller_cmd(1, 2, 3), None);
}

#[test]
fn decodes_a_brainloller_picture() {
    // + + .  then turn clockwise (south) on the last pixel, falling off below.
    let grid = RgbGrid {
        width: 4,
        height: 1,
        pixels: vec![(0, 255, 0), (0, 255, 0), (0, 0, 255), (0, 255, 255)],
    };
    assert_eq!(decode_picture(&grid, false), "++.");
    // Braincopter: (R*65536 + G*256 + B) % 11; 2 is '+', 4 is '.'
    let grid = RgbGrid { width: 2, height: 1, pixels: vec![(0, 0, 2), (0, 0, 4)] };
    assert_eq!(decode_picture(&grid, true), "+.");
}
