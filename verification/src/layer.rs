//! The map layers a world can be drawn as.

use crate::text::same_text;
use vstd::prelude::*;

verus! {

#[derive(Clone, Copy, Debug, PartialEq, Eq, Structural)]
pub enum Layer {
    /// Finished map: hypsometric tint, hillshade, rivers and lakes.
    Terrain,
    /// Elevation alone, no water and no shading.
    Elevation,
    /// Plate ownership, with sites and velocity arrows.
    Plates,
    /// Boundary classification: red convergent, blue divergent, green transform.
    Boundaries,
    /// Where deformation is actually being applied, and how hard.
    Strength,
    /// Crust age, young to old.
    CrustAge,
    /// Rainfall.
    Rainfall,
    /// Flow accumulation, on a log scale.
    Flow,
}

/// The name a layer goes by on the command line and in file names.
pub open spec fn layer_name(l: Layer) -> Seq<char> {
    match l {
        Layer::Terrain => "terrain"@,
        Layer::Elevation => "elevation"@,
        Layer::Plates => "plates"@,
        Layer::Boundaries => "boundaries"@,
        Layer::Strength => "strength"@,
        Layer::CrustAge => "crust-age"@,
        Layer::Rainfall => "rainfall"@,
        Layer::Flow => "flow"@,
    }
}

/// A name with every hyphen turned into an underscore.
pub open spec fn underscored(s: Seq<char>) -> Seq<char> {
    s.map_values(|c: char| if c == '-' { '_' } else { c })
}

/// A text that means the layer: its name, with hyphens or with underscores.
pub open spec fn names_layer(s: Seq<char>, l: Layer) -> bool {
    s == layer_name(l) || s == underscored(layer_name(l))
}

/// The layer that a text means.
pub open spec fn layer_named(s: Seq<char>) -> Option<Layer> {
    if exists|l: Layer| names_layer(s, l) {
        Some(choose|l: Layer| names_layer(s, l))
    } else {
        None
    }
}

/// No text means two layers.
pub proof fn lemma_names_differ(s: Seq<char>, a: Layer, b: Layer)
    requires
        names_layer(s, a),
        names_layer(s, b),
    ensures
        a == b,
{
    reveal_strlit("terrain");
    reveal_strlit("elevation");
    reveal_strlit("plates");
    reveal_strlit("boundaries");
    reveal_strlit("strength");
    reveal_strlit("crust-age");
    reveal_strlit("rainfall");
    reveal_strlit("flow");
    assert(layer_name(a)[0] != '-' && layer_name(b)[0] != '-');
    assert(layer_name(a)[1] != '-' && layer_name(b)[1] != '-');
    assert(s[0] == layer_name(a)[0] && s[0] == layer_name(b)[0]);
    assert(s[1] == layer_name(a)[1] && s[1] == layer_name(b)[1]);
    assert(s.len() == layer_name(a).len() && s.len() == layer_name(b).len());
}

impl Layer {
    pub const ALL: [Layer; 8] = [
        Layer::Terrain,
        Layer::Elevation,
        Layer::Plates,
        Layer::Boundaries,
        Layer::Strength,
        Layer::CrustAge,
        Layer::Rainfall,
        Layer::Flow,
    ];

    pub fn name(self) -> (r: &'static str)
        ensures
            r@ == layer_name(self),
    {
        match self {
            Layer::Terrain => "terrain",
            Layer::Elevation => "elevation",
            Layer::Plates => "plates",
            Layer::Boundaries => "boundaries",
            Layer::Strength => "strength",
            Layer::CrustAge => "crust-age",
            Layer::Rainfall => "rainfall",
            Layer::Flow => "flow",
        }
    }

    pub fn parse(s: &str) -> (r: Option<Layer>)
        ensures
            r == layer_named(s@),
    {
        let mut i: usize = 0;
        while i < 8
            invariant
                i <= 8,
                forall|j: int| 0 <= j < i ==> !names_layer(s@, #[trigger] Layer::ALL[j]),
            decreases 8 - i,
        {
            let l = Layer::ALL[i];
            if same_text(l.name(), s) || l.written_with_underscores(s) {
                proof {
                    let m = choose|m: Layer| names_layer(s@, m);
                    lemma_names_differ(s@, l, m);
                }
                return Some(l);
            }
            i += 1;
        }
        proof {
            assert forall|l: Layer| !names_layer(s@, l) by {
                let j: int = match l {
                    Layer::Terrain => 0,
                    Layer::Elevation => 1,
                    Layer::Plates => 2,
                    Layer::Boundaries => 3,
                    Layer::Strength => 4,
                    Layer::CrustAge => 5,
                    Layer::Rainfall => 6,
                    Layer::Flow => 7,
                };
                assert(Layer::ALL[j] == l);
            }
        }
        None
    }

    fn written_with_underscores(self, s: &str) -> (r: bool)
        ensures
            r == (s@ == underscored(layer_name(self))),
    {
        let name = self.name();
        let n: usize = name.unicode_len();
        if s.unicode_len() != n {
            return false;
        }
        let mut i: usize = 0;
        while i < n
            invariant
                i <= n,
                name@ == layer_name(self),
                name@.len() == n,
                s@.len() == n,
                forall|j: int| 0 <= j < i ==> s@[j] == #[trigger] underscored(layer_name(self))[j],
            decreases n - i,
        {
            let c = name.get_char(i);
            let want = if c == '-' {
                '_'
            } else {
                c
            };
            assert(want == underscored(layer_name(self))[i as int]);
            if s.get_char(i) != want {
                return false;
            }
            i += 1;
        }
        assert(s@ =~= underscored(layer_name(self)));
        true
    }
}

/// A layer is found again by its name, and by its name with underscores.
pub proof fn layer_names_round_trip(l: Layer)
    ensures
        layer_named(layer_name(l)) == Some(l),
        layer_named(underscored(layer_name(l))) == Some(l),
{
    assert(names_layer(layer_name(l), l));
    assert(names_layer(underscored(layer_name(l)), l));
    let m = choose|m: Layer| names_layer(layer_name(l), m);
    lemma_names_differ(layer_name(l), l, m);
    let k = choose|m: Layer| names_layer(underscored(layer_name(l)), m);
    lemma_names_differ(underscored(layer_name(l)), l, k);
}

} // verus!
