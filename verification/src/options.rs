//! What the options on a command line ask for.

use crate::args::{asked_from, flag_named, Flag, Outcome, Request};
use crate::fixed::Fixed;
use crate::plate::PlateParams;
use crate::scalar::Scalar;
use crate::simulation::SimulationParams;
use crate::text::{is_digit, number_in};
use vstd::prelude::*;

verus! {

proof fn lemma_flags(s: Seq<char>)
    ensures
        s == "--help"@ || s == "-h"@ ==> flag_named(s) == Some(Flag::Help),
        s == "--quiet"@ || s == "-q"@ ==> flag_named(s) == Some(Flag::Quiet),
        s == "--seed"@ ==> flag_named(s) == Some(Flag::Seed),
        s == "--steps"@ ==> flag_named(s) == Some(Flag::Steps),
        s == "--plates"@ ==> flag_named(s) == Some(Flag::Plates),
        s == "--continental"@ ==> flag_named(s) == Some(Flag::Continental),
        s == "--width"@ ==> flag_named(s) == Some(Flag::Width),
        s == "--height"@ ==> flag_named(s) == Some(Flag::Height),
        s == "--dt"@ ==> flag_named(s) == Some(Flag::Dt),
        s == "--sea-level"@ ==> flag_named(s) == Some(Flag::SeaLevel),
        s == "--erosion-every"@ ==> flag_named(s) == Some(Flag::ErosionEvery),
        s == "--out"@ ==> flag_named(s) == Some(Flag::Out),
        s == "--snapshot-every"@ ==> flag_named(s) == Some(Flag::SnapshotEvery),
        s == "--layers"@ ==> flag_named(s) == Some(Flag::Layers),
{
    reveal_strlit("--help");
    reveal_strlit("-h");
    reveal_strlit("--quiet");
    reveal_strlit("-q");
    reveal_strlit("--seed");
    reveal_strlit("--steps");
    reveal_strlit("--plates");
    reveal_strlit("--continental");
    reveal_strlit("--width");
    reveal_strlit("--height");
    reveal_strlit("--dt");
    reveal_strlit("--sea-level");
    reveal_strlit("--erosion-every");
    reveal_strlit("--out");
    reveal_strlit("--snapshot-every");
    reveal_strlit("--layers");
    assert("--help"@[2] == 'h' && "--seed"@[2] == 's' && "-h"@[1] == 'h' && "-q"@[1] == 'q');
    assert("--quiet"@[2] == 'q' && "--steps"@[2] == 's' && "--width"@[2] == 'w');
    assert("--plates"@[2] == 'p' && "--height"@[2] == 'h' && "--layers"@[2] == 'l');
    assert("--help"@.len() == 6 && "-h"@.len() == 2 && "--quiet"@.len() == 7 && "-q"@.len() == 2);
    assert("--seed"@.len() == 6 && "--steps"@.len() == 7 && "--plates"@.len() == 8);
    assert("--continental"@.len() == 13 && "--width"@.len() == 7 && "--height"@.len() == 8);
    assert("--dt"@.len() == 4 && "--sea-level"@.len() == 11 && "--erosion-every"@.len() == 15);
    assert("--out"@.len() == 5 && "--snapshot-every"@.len() == 16 && "--layers"@.len() == 8);
    if s == "--quiet"@ {
        assert(s.len() == 7 && s[2] == 'q');
    }
    if s == "-q"@ {
        assert(s.len() == 2 && s[1] == 'q');
    }
    if s == "--seed"@ {
        assert(s.len() == 6 && s[2] == 's');
    }
    if s == "--steps"@ {
        assert(s.len() == 7 && s[2] == 's');
    }
    if s == "--plates"@ {
        assert(s.len() == 8 && s[2] == 'p');
    }
    if s == "--continental"@ {
        assert(s.len() == 13 && s[2] == 'c');
    }
    if s == "--width"@ {
        assert(s.len() == 7 && s[2] == 'w');
    }
    if s == "--height"@ {
        assert(s.len() == 8 && s[2] == 'h');
    }
    if s == "--dt"@ {
        assert(s.len() == 4 && s[2] == 'd');
    }
    if s == "--sea-level"@ {
        assert(s.len() == 11 && s[2] == 's');
    }
    if s == "--erosion-every"@ {
        assert(s.len() == 15 && s[2] == 'e');
    }
    if s == "--out"@ {
        assert(s.len() == 5 && s[2] == 'o');
    }
    if s == "--snapshot-every"@ {
        assert(s.len() == 16 && s[2] == 's');
    }
    if s == "--layers"@ {
        assert(s.len() == 8 && s[2] == 'l');
    }
}

/// Every option with a number sets what it names to that number, and nothing else;
/// the words behind it are read as if that had been asked for all along.
pub proof fn options_set_what_they_name(
    words: Seq<String>,
    i: int,
    a: Request<Fixed>,
    n: nat,
)
    requires
        0 <= i,
        i + 1 < words.len(),
        number_in(words[i + 1]@) == Some(n),
        n <= u32::MAX,
    ensures
        ({
            let name = words[i]@;
            let p = a.params;
            let then = |b: Request<Fixed>|
                asked_from(words, i, a) == asked_from(words, i + 2, b);
            let asks = |q: SimulationParams<Fixed>| then((Request { params: q, ..a }));
            &&& name == "--seed"@ ==> asks((SimulationParams { seed: n as u64, ..p }))
            &&& name == "--width"@ ==> asks((SimulationParams { width: n as usize, ..p }))
            &&& name == "--height"@ ==> asks((SimulationParams { height: n as usize, ..p }))
            &&& name == "--erosion-every"@ ==> asks(
                (SimulationParams { erosion_interval: n as u32, ..p }),
            )
            &&& name == "--plates"@ ==> asks(
                (SimulationParams {
                    plates: PlateParams { count: n as usize, ..p.plates },
                    ..p
                }),
            )
            &&& name == "--dt"@ ==> asks(
                (SimulationParams { dt: Fixed { raw: (n * 65536) as i64 }, ..p }),
            )
            &&& name == "--sea-level"@ ==> asks(
                (SimulationParams { sea_level: Fixed { raw: (n * 65536) as i64 }, ..p }),
            )
            &&& name == "--continental"@ ==> asks(
                (SimulationParams {
                    plates: PlateParams {
                        continental_fraction: Fixed { raw: (n * 65536) as i64 },
                        ..p.plates
                    },
                    ..p
                }),
            )
            &&& name == "--steps"@ ==> then((Request { steps: n as u64, ..a }))
            &&& name == "--snapshot-every"@ ==> then((Request { snapshot_every: n as u64, ..a }))
        }),
{
    lemma_flags(words[i]@);
    let raw = words[i + 1]@;
    assert(raw.len() > 0 && raw[0] != '-') by {
        if raw[0] == '-' {
            assert(!is_digit(raw[0]));
        }
    }
}

/// `--out` takes its word as it is, `--quiet` takes none, and `--help` ends it all.
pub proof fn options_without_a_number(words: Seq<String>, i: int, a: Request<Fixed>)
    requires
        0 <= i < words.len(),
    ensures
        ({
            let name = words[i]@;
            &&& name == "--out"@ && i + 1 < words.len() ==> asked_from(words, i, a) == asked_from(
                words,
                i + 2,
                (Request { out: words[i + 1]@, ..a }),
            )
            &&& name == "--quiet"@ || name == "-q"@ ==> asked_from(words, i, a) == asked_from(
                words,
                i + 1,
                (Request { quiet: true, ..a }),
            )
            &&& name == "--help"@ || name == "-h"@ ==> asked_from(words, i, a) is Help
        }),
{
    lemma_flags(words[i]@);
}

/// A request is run exactly where its world has a column and three rows at least,
/// two plates at least and no more than can be numbered, a share of continents from
/// none to all, time that goes forward, and a layer to show.
pub proof fn requests_are_run_where_they_make_sense(a: Request<Fixed>, words: Seq<String>)
    requires
        words.len() == 0,
    ensures
        asked_from(words, 0, a) is Run <==> {
            &&& a.params.width >= 1
            &&& a.params.height >= 3
            &&& 2 <= a.params.plates.count <= 65534
            &&& 0 <= a.params.plates.continental_fraction.raw <= 65536
            &&& a.params.dt.raw > 0
            &&& a.layers.len() > 0
        },
        asked_from(words, 0, a) matches Outcome::Run(b) ==> b == a,
{
}

} // verus!
