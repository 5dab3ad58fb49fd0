use gomoku::board::Board;
use gomoku::game::PlayerIndicator::Player1;
use gomoku::players::{Human, Player, RandomBot, TestBot};

#[test]
fn test_bot_plays_its_list_in_order() {
    let board = Board::new();
    let mut bot = TestBot::new(vec![(3, 4), (20, 20), (3, 4), (0, 0)]);
    assert_eq!(bot.decide(&board, None), (3, 4));
    assert_eq!(bot.decide(&board, Some((3, 4))), (20, 20));
    assert_eq!(bot.decide(&board, None), (3, 4));
    assert_eq!(bot.decide(&board, None), (0, 0));
}

#[test]
fn random_bot_stays_on_the_board() {
    let mut board = Board::new();
    assert_eq!(board.make_move(Player1, (7, 7)), Ok(()));
    let mut bot = RandomBot;
    let mut rows = [false; 15];
    let mut cols = [false; 15];
    for _ in 0..2000 {
        let (row, col) = bot.decide(&board, Some((7, 7)));
        assert!(row < 15 && col < 15);
        rows[row] = true;
        cols[col] = true;
    }
    assert!(rows.iter().all(|seen| *seen));
    assert!(cols.iter().all(|seen| *seen));
}

#[test]
fn human_keeps_the_name() {
    let human = Human::new("Human Player");
    assert_eq!(human.name(), "Human Player");
}

#[test]
fn human_is_asked_by_name() {
    let human = Human::new("Ada");
    assert_eq!(human.prompt(), "Ada, insert your next move ([0-E],[0-E]): ");
}

#[test]
fn human_line_is_read_in_base_16() {
    let human = Human::new("Ada");
    assert_eq!(human.understand("3,C"), Some((3, 12)));
    assert_eq!(human.understand("e,0"), Some((14, 0)));
    assert_eq!(human.understand("10,1F"), Some((16, 31)));
}

#[test]
fn human_line_is_trimmed_first() {
    let human = Human::new("Ada");
    assert_eq!(human.understand("  a,B \n"), Some((10, 11)));
    assert_eq!(human.understand("\t7,7\r\n"), Some((7, 7)));
    assert_eq!(human.understand("\u{2003}1,2\u{a0}"), Some((1, 2)));
}

#[test]
fn human_line_that_is_no_move() {
    let human = Human::new("Ada");
    assert_eq!(human.understand(""), None);
    assert_eq!(human.understand("\n"), None);
    assert_eq!(human.understand("3 ,C"), None);
    assert_eq!(human.understand("3, C"), None);
    assert_eq!(human.understand("g,1"), None);
    assert_eq!(human.understand("pass"), None);
}

#[test]
fn every_white_space_character_is_trimmed() {
    let human = Human::new("Ada");
    let white: Vec<u32> = (0x09..=0x0D)
        .chain([0x20, 0x85, 0xA0, 0x1680])
        .chain(0x2000..=0x200A)
        .chain([0x2028, 0x2029, 0x202F, 0x205F, 0x3000])
        .collect();
    assert_eq!(white.len(), 25);
    for code in 0..=0x3100u32 {
        if let Some(c) = char::from_u32(code) {
            let line = format!("{}{}1,2{}", c, c, c);
            let expected = if white.contains(&code) { Some((1, 2)) } else { None };
            if c != '+' && !c.is_ascii_hexdigit() {
                assert_eq!(human.understand(&line), expected, "character {:#x}", code);
            }
            assert_eq!(white.contains(&code), c.is_whitespace());
        }
    }
    for code in [0x180Eu32, 0x200B, 0x2060, 0xFEFF, 0x1F, 0x1C] {
        let c = char::from_u32(code).unwrap();
        assert_eq!(human.understand(&format!("{}1,2", c)), None);
        assert_eq!(human.understand(&format!("1,2{}", c)), None);
    }
}

#[test]
fn white_space_inside_a_line_stays() {
    let human = Human::new("Ada");
    assert_eq!(human.understand(" 1 ,2 "), None);
    assert_eq!(human.understand(" 1,2 ,3 "), None);
    assert_eq!(human.understand("   "), None);
    assert_eq!(human.understand(" 1,2, 3 "), Some((1, 2)));
}
