//! Difficulties and the command line arguments of the tool.

use vstd::prelude::*;
use std::path::PathBuf;

verus! {

/// Standard Clone Hero / Guitar Hero guitar difficulties.
#[derive(Clone, Copy, Debug, PartialEq, Eq, Structural)]
pub enum Difficulty {
    Easy,
    Medium,
    Hard,
    Expert,
}

/// The four difficulties, easiest first.
pub open spec fn all_difficulties() -> Seq<Difficulty> {
    seq![Difficulty::Easy, Difficulty::Medium, Difficulty::Hard, Difficulty::Expert]
}

impl Difficulty {
    /// Lowest MIDI note of the five-fret lane of this difficulty.
    pub open spec fn spec_base_note(self) -> u8 {
        match self {
            Difficulty::Easy => 60,
            Difficulty::Medium => 72,
            Difficulty::Hard => 84,
            Difficulty::Expert => 96,
        }
    }

    /// Position of this difficulty in the order easy → expert.
    pub open spec fn spec_rank(self) -> u8 {
        match self {
            Difficulty::Easy => 0,
            Difficulty::Medium => 1,
            Difficulty::Hard => 2,
            Difficulty::Expert => 3,
        }
    }

    /// `diff_guitar` rating shown in the song browser.
    pub open spec fn spec_rating(self) -> u8 {
        match self {
            Difficulty::Easy => 2,
            Difficulty::Medium => 3,
            Difficulty::Hard => 4,
            Difficulty::Expert => 5,
        }
    }

    /// Half-beats between notes on the beat grid: one note per two beats on
    /// Easy, one per beat on Medium, two per beat on Hard and Expert.
    pub open spec fn spec_grid_step(self) -> u32 {
        match self {
            Difficulty::Easy => 4,
            Difficulty::Medium => 2,
            Difficulty::Hard => 1,
            Difficulty::Expert => 1,
        }
    }

    /// Every difficulty up to and including `self`, easiest first.
    pub open spec fn spec_up_to(self) -> Seq<Difficulty> {
        all_difficulties().take(self.spec_rank() as int + 1)
    }

    /// Lowest MIDI note for this difficulty's 5-fret lane (green fret).
    /// Frets green..orange occupy `base..=base + 4`.
    pub fn base_note(self) -> (note: u8)
        ensures
            note == self.spec_base_note(),
    {
        match self {
            Difficulty::Easy => 60,
            Difficulty::Medium => 72,
            Difficulty::Hard => 84,
            Difficulty::Expert => 96,
        }
    }

    /// Ordering rank, used to select "every difficulty up to this one".
    pub fn rank(self) -> (r: u8)
        ensures
            r == self.spec_rank(),
    {
        match self {
            Difficulty::Easy => 0,
            Difficulty::Medium => 1,
            Difficulty::Hard => 2,
            Difficulty::Expert => 3,
        }
    }

    /// `diff_guitar` intensity rating shown in Clone Hero's song browser.
    pub fn rating(self) -> (r: u8)
        ensures
            r == self.spec_rating(),
    {
        match self {
            Difficulty::Easy => 2,
            Difficulty::Medium => 3,
            Difficulty::Hard => 4,
            Difficulty::Expert => 5,
        }
    }

    /// How densely the beat grid is charted: the half-beats between two
    /// notes (the inverse of the notes per beat, in half-beats).
    pub fn grid_step(self) -> (step: u32)
        ensures
            step == self.spec_grid_step(),
    {
        match self {
            Difficulty::Easy => 4,
            Difficulty::Medium => 2,
            Difficulty::Hard => 1,
            Difficulty::Expert => 1,
        }
    }

    /// All difficulties up to and including `self`, easy → hardest.
    pub fn up_to(self) -> (ds: Vec<Difficulty>)
        ensures
            ds@ == self.spec_up_to(),
    {
        let all = [Difficulty::Easy, Difficulty::Medium, Difficulty::Hard, Difficulty::Expert];
        let mut ds: Vec<Difficulty> = Vec::new();
        let own = self.rank();
        let mut i: usize = 0;
        while i < 4
            invariant
                i <= 4,
                all@ == all_difficulties(),
                own == self.spec_rank(),
                ds@ == all_difficulties().take(if i <= own { i as int } else { own as int + 1 }),
            decreases 4 - i,
        {
            let d = all[i];
            if d.rank() <= own {
                ds.push(d);
            }
            i = i + 1;
        }
        ds
    }
}

/// Ranks and lanes: the lane of a difficulty starts twelve notes above the
/// one below it, and its rating is its rank plus two.
pub proof fn lemma_lane_and_rating_follow_rank(d: Difficulty)
    ensures
        d.spec_base_note() == 60 + 12 * d.spec_rank(),
        d.spec_rating() == d.spec_rank() + 2,
{
}

/// `up_to(d)` holds exactly the difficulties whose rank is at most that of
/// `d`, each once, in increasing rank, and it ends with `d` itself.
pub proof fn lemma_up_to_selects_lower_ranks(d: Difficulty)
    ensures
        d.spec_up_to().len() == d.spec_rank() + 1,
        d.spec_up_to().last() == d,
        forall|e: Difficulty| d.spec_up_to().contains(e) <==> e.spec_rank() <= d.spec_rank(),
        forall|i: int| 0 <= i < d.spec_up_to().len() ==> (#[trigger] d.spec_up_to()[i]).spec_rank() == i,
{
    let s = d.spec_up_to();
    assert forall|e: Difficulty| s.contains(e) <==> e.spec_rank() <= d.spec_rank() by {
        if e.spec_rank() <= d.spec_rank() {
            assert(s[e.spec_rank() as int] == e);
        }
    }
}

/// Turn any audio file into a ready-to-play Clone Hero song folder.
pub struct Cli {
    /// Input audio file (mp3, wav, flac, ogg).
    pub input: PathBuf,
    /// Directory the generated song folder is written into.
    pub output: PathBuf,
    /// Highest difficulty to chart. Every difficulty up to and including this
    /// one is generated, so the song is always playable in-game.
    pub difficulty: Difficulty,
    /// Overwrite the song folder if it already exists.
    pub force: bool,
}

} // verus!
