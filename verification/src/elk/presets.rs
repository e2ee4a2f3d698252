//! Named slider presets — the three reference regimes. Each preset's slider
//! bundle is keyed by its name.

use vstd::prelude::*;

verus! {

pub struct Preset {
    pub name: &'static str,
    pub description: &'static str,
}

/// The preset table, in listing order.
pub open spec fn presets_spec() -> Seq<Preset> {
    seq![
        Preset {
            name: "Default",
            description: "Stock weights, no pull, plenty of food \u{2014} with no eastward drive the herd mills and overcrowds the first segment, never crossing (stage 1, broken).",
        },
        Preset {
            name: "Can cross",
            description: "Forage-sticky: follows the green-up front, rolls as a glob, and fords the river on the natural drives at zero pull \u{2014} easy economy.",
        },
        Preset {
            name: "Optimized",
            description: "The same natural-drive crossing under leaner scarcity \u{2014} a stage-3 score target where the model must hold together as food thins.",
        },
    ]
}

/// The three reference presets: default, can-cross, optimized.
pub fn presets() -> (p: Vec<Preset>)
    ensures
        p@ == presets_spec(),
{
    let mut p: Vec<Preset> = Vec::new();
    p.push(Preset {
        name: "Default",
        description: "Stock weights, no pull, plenty of food \u{2014} with no eastward drive the herd mills and overcrowds the first segment, never crossing (stage 1, broken).",
    });
    p.push(Preset {
        name: "Can cross",
        description: "Forage-sticky: follows the green-up front, rolls as a glob, and fords the river on the natural drives at zero pull \u{2014} easy economy.",
    });
    p.push(Preset {
        name: "Optimized",
        description: "The same natural-drive crossing under leaner scarcity \u{2014} a stage-3 score target where the model must hold together as food thins.",
    });
    assert(p@ =~= presets_spec());
    p
}

/// Every preset has a name, and no two share one, so a preset is found by name.
pub proof fn lemma_preset_names_unique()
    ensures
        forall|i: int| 0 <= i < presets_spec().len() ==> #[trigger] presets_spec()[i].name@.len() > 0,
        forall|i: int, j: int| 0 <= i < j < presets_spec().len() ==> presets_spec()[i].name@ != presets_spec()[j].name@,
{
    reveal_strlit("Default");
    reveal_strlit("Can cross");
    reveal_strlit("Optimized");
    assert("Default"@[0] != "Can cross"@[0]);
    assert("Default"@[0] != "Optimized"@[0]);
    assert("Can cross"@[0] != "Optimized"@[0]);
}

} // verus!
