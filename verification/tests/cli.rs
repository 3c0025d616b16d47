use clonehero_maker::cli::Difficulty;

#[test]
fn up_to_includes_all_lower_difficulties() {
    assert_eq!(Difficulty::Easy.up_to(), vec![Difficulty::Easy]);
    assert_eq!(
        Difficulty::Hard.up_to(),
        vec![Difficulty::Easy, Difficulty::Medium, Difficulty::Hard]
    );
    assert_eq!(Difficulty::Expert.up_to().len(), 4);
}

#[test]
fn base_notes_match_clone_hero_lanes() {
    assert_eq!(Difficulty::Easy.base_note(), 60);
    assert_eq!(Difficulty::Medium.base_note(), 72);
    assert_eq!(Difficulty::Hard.base_note(), 84);
    assert_eq!(Difficulty::Expert.base_note(), 96);
}

#[test]
fn ranks_and_ratings_follow_the_difficulty_order() {
    let all = [Difficulty::Easy, Difficulty::Medium, Difficulty::Hard, Difficulty::Expert];
    for (i, d) in all.iter().enumerate() {
        assert_eq!(d.rank() as usize, i);
        assert_eq!(d.rating(), d.rank() + 2);
        assert_eq!(d.base_note(), 60 + 12 * d.rank());
        assert_eq!(d.up_to().len(), i + 1);
        assert_eq!(*d.up_to().last().unwrap(), *d);
    }
    assert_eq!(
        Difficulty::Expert.up_to(),
        vec![Difficulty::Easy, Difficulty::Medium, Difficulty::Hard, Difficulty::Expert]
    );
    assert_eq!(Difficulty::Medium.up_to(), vec![Difficulty::Easy, Difficulty::Medium]);
}
