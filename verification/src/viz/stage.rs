//! The stages of terrain generation that can be drawn.

use vstd::prelude::*;

use crate::command::text::Line;

verus! {

/// A stage of terrain generation.
#[derive(Debug, Clone, Copy, PartialEq, Eq, Structural)]
pub enum Stage {
    Continentalness,
    PlateId,
    Temperature,
    Humidity,
    Desertness,
    Weirdness,
    HPre,
    ValleyCarve,
    HTarget,
    FlowAccum,
    BiomeId,
    AquiferY,
    AquiferSubstance,
}

/// The name of a stage on the command line.
pub open spec fn stage_name(s: Stage) -> Seq<char> {
    match s {
        Stage::Continentalness => "continentalness"@,
        Stage::PlateId => "plate-id"@,
        Stage::Temperature => "temperature"@,
        Stage::Humidity => "humidity"@,
        Stage::Desertness => "desertness"@,
        Stage::Weirdness => "weirdness"@,
        Stage::HPre => "h-pre"@,
        Stage::ValleyCarve => "valley-carve"@,
        Stage::HTarget => "h-target"@,
        Stage::FlowAccum => "flow-accum"@,
        Stage::BiomeId => "biome-id"@,
        Stage::AquiferY => "aquifer-y"@,
        Stage::AquiferSubstance => "aquifer-substance"@,
    }
}

/// No two stages share a name.
pub proof fn law_stage_names_differ(a: Stage, b: Stage)
    requires
        stage_name(a) == stage_name(b),
    ensures
        a == b,
{
    reveal_strlit("continentalness");
    reveal_strlit("plate-id");
    reveal_strlit("temperature");
    reveal_strlit("humidity");
    reveal_strlit("desertness");
    reveal_strlit("weirdness");
    reveal_strlit("h-pre");
    reveal_strlit("valley-carve");
    reveal_strlit("h-target");
    reveal_strlit("flow-accum");
    reveal_strlit("biome-id");
    reveal_strlit("aquifer-y");
    reveal_strlit("aquifer-substance");
    assert("continentalness"@.len() == 15);
    assert("plate-id"@.len() == 8);
    assert("temperature"@.len() == 11);
    assert("humidity"@.len() == 8);
    assert("desertness"@.len() == 10);
    assert("weirdness"@.len() == 9);
    assert("h-pre"@.len() == 5);
    assert("valley-carve"@.len() == 12);
    assert("h-target"@.len() == 8);
    assert("flow-accum"@.len() == 10);
    assert("biome-id"@.len() == 8);
    assert("aquifer-y"@.len() == 9);
    assert("aquifer-substance"@.len() == 17);
    assert("plate-id"@[0] == 'p');
    assert("biome-id"@[0] == 'b');
    assert("humidity"@[0] == 'h' && "humidity"@[2] == 'm');
    assert("h-target"@[0] == 'h' && "h-target"@[2] == 't');
    assert("desertness"@[0] == 'd');
    assert("flow-accum"@[0] == 'f');
    assert("weirdness"@[0] == 'w');
    assert("aquifer-y"@[0] == 'a');
}

/// The stage with a name; none if no stage has it.
pub fn stage_named(s: &str) -> (r: Option<Stage>)
    ensures
        match r {
            Some(stage) => stage_name(stage) == s@,
            None => forall|stage: Stage| #[trigger] stage_name(stage) != s@,
        },
{
    let line: Line = Line::new(s);
    let n: usize = line.len();
    assert(line@.subrange(0, n as int) =~= s@);
    if line.spells(0, n, "continentalness") {
        Some(Stage::Continentalness)
    } else if line.spells(0, n, "plate-id") {
        Some(Stage::PlateId)
    } else if line.spells(0, n, "temperature") {
        Some(Stage::Temperature)
    } else if line.spells(0, n, "humidity") {
        Some(Stage::Humidity)
    } else if line.spells(0, n, "desertness") {
        Some(Stage::Desertness)
    } else if line.spells(0, n, "weirdness") {
        Some(Stage::Weirdness)
    } else if line.spells(0, n, "h-pre") {
        Some(Stage::HPre)
    } else if line.spells(0, n, "valley-carve") {
        Some(Stage::ValleyCarve)
    } else if line.spells(0, n, "h-target") {
        Some(Stage::HTarget)
    } else if line.spells(0, n, "flow-accum") {
        Some(Stage::FlowAccum)
    } else if line.spells(0, n, "biome-id") {
        Some(Stage::BiomeId)
    } else if line.spells(0, n, "aquifer-y") {
        Some(Stage::AquiferY)
    } else if line.spells(0, n, "aquifer-substance") {
        Some(Stage::AquiferSubstance)
    } else {
        None
    }
}

} // verus!
