use task_composer::songs::{
    async_main, dance, hello_world, learn_and_sing, learn_song, sing_song, Song, MARK_DANCE,
    MARK_HELLO_WORLD, MARK_LEARN_SONG, MARK_SING_SONG,
};
use task_composer::task::run_to_completion;

/// The greeting task emits nothing when built; a line logged after creation
/// but before driving comes out before the task's own marker.
#[test]
fn hello_world_after_future() {
    let mut log: Vec<u64> = Vec::new();
    let future = hello_world();
    log.push(99); // the line printed between creation and driving
    run_to_completion(&mut log, future);
    assert_eq!(log, vec![99, MARK_HELLO_WORLD]);
}

/// Learning yields the song, and singing consumes exactly that song; driven
/// one after the other their markers arrive in order.
#[test]
fn learn_then_sing_by_hand() {
    let mut log: Vec<u64> = Vec::new();
    let song = run_to_completion(&mut log, learn_song());
    assert_eq!(song, Song {});
    run_to_completion(&mut log, sing_song(song));
    assert_eq!(log, vec![MARK_LEARN_SONG, MARK_SING_SONG]);
}

/// The sequential demo: the singing marker never precedes the learning
/// marker.
#[test]
fn learn_and_sing_orders_markers() {
    let mut log: Vec<u64> = Vec::new();
    learn_and_sing(&mut log);
    assert_eq!(log, vec![MARK_LEARN_SONG, MARK_SING_SONG]);
}

/// The sequential demo appends to whatever the log already holds.
#[test]
fn learn_and_sing_appends() {
    let mut log: Vec<u64> = vec![1, 1];
    learn_and_sing(&mut log);
    assert_eq!(log, vec![1, 1, MARK_LEARN_SONG, MARK_SING_SONG]);
}

/// Dancing is an independent body with a unit result.
#[test]
fn dance_alone() {
    let mut log: Vec<u64> = Vec::new();
    run_to_completion(&mut log, dance());
    assert_eq!(log, vec![MARK_DANCE]);
}

/// The concurrent demo completes without deadlock, emits all three markers,
/// and keeps the learning marker before the singing marker.
#[test]
fn async_main_joins_all() {
    let mut log: Vec<u64> = Vec::new();
    async_main(&mut log);
    assert_eq!(log.len(), 3);
    let learn = log.iter().position(|e| *e == MARK_LEARN_SONG).unwrap();
    let sing = log.iter().position(|e| *e == MARK_SING_SONG).unwrap();
    assert!(log.contains(&MARK_DANCE));
    assert!(learn < sing);
}
