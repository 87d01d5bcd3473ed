use rectpaint::check_undraw;
use rectpaint::rect;
use rectpaint::Script;
use rectpaint::Undraw;

/// A fixed guess: always answers with the same one-box script, whatever
/// the picture looks like.
struct OneBoxGuess;

impl Undraw for OneBoxGuess {
    fn undraw(&self, _picture: &str) -> Script {
        let cmds = vec![rect(1, 1, 3, 3, 'b')];
        Script::new_commands(5, 5, &cmds)
    }
}

#[test]
fn oracle_accepts_exact_reproduction() {
    let cmds = vec![rect(1, 1, 3, 3, 'b')];
    let picture = Script::new_commands(5, 5, &cmds).run();
    match check_undraw(&picture, &OneBoxGuess) {
        Ok(s) => assert_eq!(s.run(), picture),
        Err(_) => panic!("the exact script must pass the oracle"),
    }
}

#[test]
fn oracle_reports_mismatch_with_both_texts() {
    let goal = "zzzzz\nzzzzz\nzzzzz\nzzzzz\nzzzzz\n";
    match check_undraw(goal, &OneBoxGuess) {
        Ok(_) => panic!("a wrong script must not pass the oracle"),
        Err(m) => {
            assert_eq!(m.goal, goal);
            assert_eq!(m.made, m.script.run());
            assert_ne!(m.made, m.goal);
        }
    }
}
