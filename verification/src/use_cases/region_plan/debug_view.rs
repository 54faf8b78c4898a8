//! A plan drawn in characters.

use vstd::prelude::*;

use crate::domain::entities::architecture::SpaceProgram;

verus! {

/// What an anomaly is drawn as.
#[derive(Clone, Copy, Debug, PartialEq, Eq, Structural)]
pub enum AnomalyMark {
    Pillars,
    Blackout,
    Pits,
    RedRoom,
    Archway,
}

pub open spec fn program_glyph(program: SpaceProgram) -> char {
    match program {
        SpaceProgram::OpenOffice => 'o',
        SpaceProgram::PrivateOffice => 'p',
        SpaceProgram::ConferenceRoom => 'c',
        SpaceProgram::BreakRoom => 'b',
        SpaceProgram::Storage => 's',
        SpaceProgram::ServerRoom => 'v',
        SpaceProgram::WaitingArea => 'w',
        SpaceProgram::AbandonedExpansion => 'x',
        SpaceProgram::Atrium => 'A',
        SpaceProgram::Stair => 'S',
        _ => 'r',
    }
}

pub open spec fn anomaly_glyph(mark: AnomalyMark) -> char {
    match mark {
        AnomalyMark::Pillars => 'P',
        AnomalyMark::Blackout => 'B',
        AnomalyMark::Pits => 'H',
        AnomalyMark::RedRoom => 'R',
        AnomalyMark::Archway => 'M',
    }
}

/// What covers one character's place.
#[derive(Clone, Copy, Debug, PartialEq, Eq, Structural)]
pub struct PlanSpot {
    /// The last assembly that contains it.
    pub program: Option<SpaceProgram>,
    /// The last anomaly that contains it.
    pub anomaly: Option<AnomalyMark>,
    pub corridor: bool,
    pub entrance: bool,
}

/// Entrances over corridors over anomalies over assemblies over empty fabric.
pub open spec fn spot_glyph(s: PlanSpot) -> char {
    if s.entrance {
        '+'
    } else if s.corridor {
        '='
    } else if s.anomaly is Some {
        anomaly_glyph(s.anomaly->0)
    } else if s.program is Some {
        program_glyph(s.program->0)
    } else {
        '.'
    }
}

pub fn glyph(s: &PlanSpot) -> (g: char)
    ensures
        g == spot_glyph(*s),
{
    if s.entrance {
        return '+';
    }
    if s.corridor {
        return '=';
    }
    if let Some(mark) = s.anomaly {
        return match mark {
            AnomalyMark::Pillars => 'P',
            AnomalyMark::Blackout => 'B',
            AnomalyMark::Pits => 'H',
            AnomalyMark::RedRoom => 'R',
            AnomalyMark::Archway => 'M',
        };
    }
    match s.program {
        Some(program) => match program {
            SpaceProgram::OpenOffice => 'o',
            SpaceProgram::PrivateOffice => 'p',
            SpaceProgram::ConferenceRoom => 'c',
            SpaceProgram::BreakRoom => 'b',
            SpaceProgram::Storage => 's',
            SpaceProgram::ServerRoom => 'v',
            SpaceProgram::WaitingArea => 'w',
            SpaceProgram::AbandonedExpansion => 'x',
            SpaceProgram::Atrium => 'A',
            SpaceProgram::Stair => 'S',
            _ => 'r',
        },
        None => '.',
    }
}

/// The first `n` characters of a drawing with `side` spots to a row, of which
/// every row ends in a line break.
pub open spec fn drawing(spots: Seq<PlanSpot>, side: int, n: nat) -> Seq<char>
    decreases n,
{
    if n == 0 {
        Seq::empty()
    } else {
        let before = drawing(spots, side, (n - 1) as nat);
        let row = (n - 1) / (side + 1);
        let column = (n - 1) % (side + 1);
        before.push(
            if column == side {
                '\n'
            } else {
                spot_glyph(spots[row * side + column])
            },
        )
    }
}

proof fn lemma_drawing_place(side: int, row: int, column: int)
    requires
        0 <= row,
        0 <= column <= side,
    ensures
        (row * (side + 1) + column) / (side + 1) == row,
        (row * (side + 1) + column) % (side + 1) == column,
{
    assert((row * (side + 1) + column) / (side + 1) == row && (row * (side + 1) + column) % (side + 1)
        == column) by (nonlinear_arith)
        requires
            0 <= row,
            0 <= column <= side,
    ;
}

/// Draws a square plan row by row.
pub fn debug_region_ascii(spots: &Vec<PlanSpot>, side: usize) -> (text: Vec<char>)
    requires
        spots@.len() == side * side,
    ensures
        text@ == drawing(spots@, side as int, (side * (side + 1)) as nat),
{
    let mut text: Vec<char> = Vec::new();
    let mut row: usize = 0;
    let mut next: usize = 0;
    while row < side
        invariant
            row <= side,
            spots@.len() == side * side,
            next == row * side,
            text@ == drawing(spots@, side as int, (row * (side + 1)) as nat),
        decreases side - row,
    {
        proof {
            assert(row * side + side <= side * side) by (nonlinear_arith)
                requires
                    row < side,
            ;
        }
        let mut column: usize = 0;
        while column < side
            invariant
                row < side,
                column <= side,
                spots@.len() == side * side,
                row * side + side <= side * side,
                next == row * side + column,
                text@ == drawing(spots@, side as int, (row * (side + 1) + column) as nat),
            decreases side - column,
        {
            proof {
                lemma_drawing_place(side as int, row as int, column as int);
                assert(0 <= row * (side + 1)) by (nonlinear_arith);
            }
            assert(next < spots.len());
            text.push(glyph(&spots[next]));
            column = column + 1;
            next = next + 1;
        }
        proof {
            lemma_drawing_place(side as int, row as int, side as int);
            assert(0 <= row * (side + 1)) by (nonlinear_arith);
            assert((row + 1) * (side + 1) == row * (side + 1) + side + 1) by (nonlinear_arith);
            assert((row + 1) * side == row * side + side) by (nonlinear_arith);
        }
        text.push('\n');
        row = row + 1;
    }
    text
}

proof fn lemma_drawn(spots: Seq<PlanSpot>, side: int, n: nat, i: int)
    requires
        0 <= i < n,
    ensures
        drawing(spots, side, n).len() == n,
        drawing(spots, side, n)[i] == (if i % (side + 1) == side {
            '\n'
        } else {
            spot_glyph(spots[(i / (side + 1)) * side + i % (side + 1)])
        }),
    decreases n,
{
    lemma_drawn_len(spots, side, (n - 1) as nat);
    if i < n - 1 {
        lemma_drawn(spots, side, (n - 1) as nat, i);
    }
}

proof fn lemma_drawn_len(spots: Seq<PlanSpot>, side: int, n: nat)
    ensures
        drawing(spots, side, n).len() == n,
    decreases n,
{
    if n > 0 {
        lemma_drawn_len(spots, side, (n - 1) as nat);
    }
}

/// The drawing shows the plan row by row, each row ended by a line break. An entrance
/// shows before everything else, a corridor before anomalies, an anomaly before the
/// assembly that it covers, and a dot where there is nothing.
pub proof fn law_drawing_shows_every_spot(spots: Seq<PlanSpot>, side: int, row: int, column: int)
    requires
        0 <= row < side,
        0 <= column < side,
        spots.len() == side * side,
    ensures
        ({
            let text = drawing(spots, side, (side * (side + 1)) as nat);
            let spot = spots[row * side + column];
            let shown = text[row * (side + 1) + column];
            &&& text.len() == side * (side + 1)
            &&& text[row * (side + 1) + side] == '\n'
            &&& shown == '+' <==> spot.entrance
            &&& shown == '=' <==> spot.corridor && !spot.entrance
            &&& shown == '.' <==> !spot.entrance && !spot.corridor && spot.anomaly is None
                && spot.program is None
            &&& shown == 'R' <==> !spot.entrance && !spot.corridor && spot.anomaly == Some(
                AnomalyMark::RedRoom,
            )
            &&& shown == 'M' <==> !spot.entrance && !spot.corridor && spot.anomaly == Some(
                AnomalyMark::Archway,
            )
            &&& shown == 'x' <==> !spot.entrance && !spot.corridor && spot.anomaly is None
                && spot.program == Some(SpaceProgram::AbandonedExpansion)
            &&& shown == 'o' <==> !spot.entrance && !spot.corridor && spot.anomaly is None
                && spot.program == Some(SpaceProgram::OpenOffice)
        }),
{
    let n = (side * (side + 1)) as nat;
    let i = row * (side + 1) + column;
    let j = row * (side + 1) + side;
    assert(0 <= i < side * (side + 1) && 0 <= j < side * (side + 1)) by (nonlinear_arith)
        requires
            0 <= row < side,
            0 <= column < side,
            i == row * (side + 1) + column,
            j == row * (side + 1) + side,
    ;
    lemma_drawing_place(side, row, column);
    lemma_drawing_place(side, row, side);
    lemma_drawn(spots, side, n, i);
    lemma_drawn(spots, side, n, j);
}

} // verus!
