use rectpaint::grid::Grid;
use rectpaint::rect;
use rectpaint::Command;
use rectpaint::Script;

fn draw(x: u32, y: u32, w: u32, h: u32, fill: char) -> Command {
    rect(x, y, w, h, fill)
}

#[test]
fn empty_space() {
    assert_eq!(
        Script::new(5, 3).run(),
        ".....\n\
         .....\n\
         .....\n"
    );
}

#[test]
fn three_by_three_b() {
    let cmds = vec![draw(1, 1, 3, 3, 'b')];
    assert_eq!(
        Script::new_commands(5, 5, &cmds).run(),
        ".....\n\
         .+-+.\n\
         .|b|.\n\
         .+-+.\n\
         .....\n"
    );
}

#[test]
fn three_by_four_b() {
    let cmds = vec![draw(1, 1, 3, 4, 'b')];
    assert_eq!(
        Script::new_commands(5, 5, &cmds).run(),
        ".....\n\
         .+-+.\n\
         .|b|.\n\
         .|b|.\n\
         .+-+.\n"
    );
}

#[test]
fn three_by_four_c() {
    let cmds = vec![draw(1, 1, 3, 4, 'c')];
    assert_eq!(
        Script::new_commands(5, 5, &cmds).run(),
        ".....\n\
         .+-+.\n\
         .|c|.\n\
         .|c|.\n\
         .+-+.\n"
    );
}

#[test]
fn side_by_side() {
    let cmds = vec![draw(1, 0, 3, 4, 'b'), draw(6, 2, 3, 3, 'c')];
    assert_eq!(
        Script::new_commands(10, 5, &cmds).run(),
        ".+-+......\n\
         .|b|......\n\
         .|b|..+-+.\n\
         .+-+..|c|.\n\
         ......+-+.\n"
    );
}

#[test]
fn overlapping() {
    let cmds = vec![draw(0, 0, 3, 4, 'b'), draw(1, 2, 3, 3, 'c')];
    assert_eq!(
        Script::new_commands(5, 5, &cmds).run(),
        "+-+..\n\
         |b|..\n\
         |+-+.\n\
         +|c|.\n\
         .+-+.\n"
    );
}

#[test]
fn stout() {
    let cmds = vec![draw(1, 1, 5, 2, 'b')];
    assert_eq!(
        Script::new_commands(7, 7, &cmds).run(),
        ".......\n\
         .+---+.\n\
         .+---+.\n\
         .......\n\
         .......\n\
         .......\n\
         .......\n"
    );
}

#[test]
fn skinny() {
    let cmds = vec![draw(1, 1, 2, 5, 'b')];
    assert_eq!(
        Script::new_commands(7, 7, &cmds).run(),
        ".......\n\
         .++....\n\
         .||....\n\
         .||....\n\
         .||....\n\
         .++....\n\
         .......\n"
    );
}

#[test]
fn four_by_one_b() {
    let cmds = vec![draw(1, 1, 4, 1, 'b')];
    assert_eq!(
        Script::new_commands(7, 7, &cmds).run(),
        ".......\n\
         .bbbb..\n\
         .......\n\
         .......\n\
         .......\n\
         .......\n\
         .......\n"
    );
}

#[test]
fn one_by_four_c() {
    let cmds = vec![draw(2, 1, 1, 4, 'c')];
    assert_eq!(
        Script::new_commands(7, 7, &cmds).run(),
        ".......\n\
         ..c....\n\
         ..c....\n\
         ..c....\n\
         ..c....\n\
         .......\n\
         .......\n"
    );
}

#[test]
fn max_box() {
    let cmds = vec![draw(0, 0, 5, 3, 'b')];
    assert_eq!(
        Script::new_commands(5, 3, &cmds).run(),
        "+---+\n\
         |bbb|\n\
         +---+\n"
    );
}

#[test]
fn degenerate_line_writes_no_border_even_for_border_fill() {
    let cmds = vec![draw(1, 1, 4, 1, '-'), draw(2, 3, 1, 3, '|')];
    assert_eq!(
        Script::new_commands(7, 7, &cmds).run(),
        ".......\n\
         .----..\n\
         .......\n\
         ..|....\n\
         ..|....\n\
         ..|....\n\
         .......\n"
    );
}

#[test]
fn later_command_overwrites_overlap() {
    let cmds = vec![draw(0, 0, 4, 4, 'b'), draw(1, 1, 3, 3, 'c')];
    let text = Script::new_commands(5, 5, &cmds).run();
    assert_eq!(
        text,
        "+--+.\n\
         |+-+.\n\
         ||c|.\n\
         ++-+.\n\
         .....\n"
    );
}

#[test]
fn append_then_commands_keeps_order() {
    let mut s = Script::new(6, 4);
    s.add_end_command(rect(0, 0, 2, 2, 'a'));
    s.add_end_command(rect(3, 1, 3, 3, 'z'));
    let cmds = s.commands();
    assert_eq!(cmds.len(), 2);
    assert_eq!((cmds[0].x, cmds[0].y, cmds[0].w, cmds[0].h, cmds[0].fill), (0, 0, 2, 2, 'a'));
    assert_eq!((cmds[1].x, cmds[1].y, cmds[1].w, cmds[1].h, cmds[1].fill), (3, 1, 3, 3, 'z'));
}

#[test]
fn custom_background_renders() {
    let s = Script::new_bg_commands(3, 2, '#', &[]);
    assert_eq!(s.run(), "###\n###\n");
}

#[test]
fn render_reparse_reserialize_is_identity() {
    let cmds = vec![draw(0, 0, 3, 4, 'b'), draw(1, 2, 3, 3, 'c')];
    let picture = Script::new_commands(5, 5, &cmds).run();
    let reparsed = Grid::from_str(&picture).unwrap();
    assert_eq!(reparsed.to_string(), picture);
}
