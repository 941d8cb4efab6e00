use solution::data_structure::finger_tree::{Chunk, FingerTree, FingerTreeStore, Value};
use solution::data_structure::ref_store::{ArenaRef, RcStoreFactory};
use solution::text_history::{typing_step, Command};

type Text = FingerTree<Value<u8>, 2, ArenaRef<'static>>;

#[test]
fn typing_undo_and_queries() {
    let mut texts: FingerTreeStore<Chunk<Value<u8>, 2>, RcStoreFactory> = FingerTreeStore::default();
    let mut histories: FingerTreeStore<Chunk<Value<Text>, 1>, RcStoreFactory> = FingerTreeStore::default();
    let mut history: FingerTree<Value<Text>, 1, ArenaRef<'static>> = FingerTree::new();
    history.push_front_mut(&mut histories, Value(Text::new()));

    let mut run = |command: Command| typing_step(&mut history, &mut histories, &mut texts, command);
    assert_eq!(run(Command::Type(b'a')), None);
    assert_eq!(run(Command::Type(b'b')), None);
    assert_eq!(run(Command::Type(b'c')), None);
    assert_eq!(run(Command::Query(2)), Some(b'b'));
    assert_eq!(run(Command::Query(3)), Some(b'c'));
    // back to the text of two commands ago: "a"
    assert_eq!(run(Command::Undo(2)), None);
    assert_eq!(run(Command::Query(1)), Some(b'a'));
    assert_eq!(run(Command::Type(b'd')), None);
    assert_eq!(run(Command::Query(2)), Some(b'd'));
    // undoing the last command gives "a" again
    assert_eq!(run(Command::Undo(1)), None);
    assert_eq!(run(Command::Query(1)), Some(b'a'));
    // undoing the undo gives "ad"
    assert_eq!(run(Command::Undo(1)), None);
    assert_eq!(run(Command::Query(2)), Some(b'd'));
}
