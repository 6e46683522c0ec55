//! How loud the sounds of the surroundings are, and how fast and loud steps
//! and music play. Loudness, heights and speeds are given in millionths.

use vstd::prelude::*;

use crate::audio::{AmbientLayerConfig, AmbientLayerKind};
use crate::fixed::ONE;

verus! {

/// What is heard where the listener is.
#[derive(Debug, Clone, Copy, PartialEq, Eq, Structural)]
pub struct AmbientProbe {
    /// Height of the listener.
    pub height: i64,
    /// How much of the sun there is, from 0 at midnight to 1 at noon.
    pub daylight: i64,
    /// How close water is, 1 when it is touched.
    pub nearby_water: i64,
    /// How close lava is.
    pub nearby_lava: i64,
    /// How far below ground the listener is.
    pub undergroundness: i64,
}

/// How loud one layer is to be.
#[derive(Debug)]
pub struct AmbientLayerTarget {
    pub id: String,
    pub kind: AmbientLayerKind,
    pub volume: i64,
}

/// A value brought into the range from 0 to 1.
pub open spec fn unit(v: int) -> int {
    if v < 0 {
        0
    } else if v > 1_000_000 {
        1_000_000
    } else {
        v
    }
}

/// How far below ground a height is: none from 72 blocks up, fully 48 blocks
/// below that.
pub open spec fn depth_at(height: int) -> int {
    unit((72_000_000 - height) / 48)
}

/// How strong wind is at a height: a fifth up to 72 blocks, full 80 blocks
/// above that.
pub open spec fn wind_at(height: int) -> int {
    200_000 + unit((height - 72_000_000) / 80) * 4 / 5
}

/// How much of a layer is heard.
pub open spec fn factor_of(kind: AmbientLayerKind, p: AmbientProbe) -> int {
    let above = 1_000_000 - unit(p.undergroundness as int);
    match kind {
        AmbientLayerKind::Wind => wind_at(p.height as int) * above / 1_000_000,
        AmbientLayerKind::Day => unit(p.daylight as int) * above / 1_000_000,
        AmbientLayerKind::Night => (1_000_000 - unit(p.daylight as int)) * above / 1_000_000,
        AmbientLayerKind::Water => unit(p.nearby_water as int),
        AmbientLayerKind::Lava => unit(p.nearby_lava as int),
        AmbientLayerKind::Cave => unit(p.undergroundness as int),
    }
}

/// How loud a layer of some base volume is.
pub open spec fn volume_of(base: int, factor: int) -> int {
    unit(base * factor / 1_000_000)
}

fn unit_of(v: i64) -> (r: i64)
    ensures
        r == unit(v as int),
{
    if v < 0 {
        0
    } else if v > ONE {
        ONE
    } else {
        v
    }
}

/// The product of two values from 0 to 1.
fn share(a: i64, b: i64) -> (r: i64)
    requires
        0 <= a <= 1_000_000,
        0 <= b <= 1_000_000,
    ensures
        r == a * b / 1_000_000,
        0 <= r <= 1_000_000,
{
    assert(0 <= a * b <= 1_000_000_000_000) by (nonlinear_arith)
        requires
            0 <= a <= 1_000_000,
            0 <= b <= 1_000_000,
    ;
    a * b / 1_000_000
}

/// How far below ground a height is.
pub fn undergroundness(height: i64) -> (d: i64)
    ensures
        d == depth_at(height as int),
{
    if height > 72_000_000 {
        0
    } else if height <= 24_000_000 {
        ONE
    } else {
        (72_000_000 - height) / 48
    }
}

fn wind(height: i64) -> (w: i64)
    ensures
        w == wind_at(height as int),
        200_000 <= w <= 1_000_000,
{
    if height <= 72_000_000 {
        200_000
    } else if height >= 152_000_000 {
        ONE
    } else {
        200_000 + (height - 72_000_000) / 80 * 4 / 5
    }
}

/// How much of a layer is heard.
pub fn layer_factor(kind: AmbientLayerKind, probe: AmbientProbe) -> (f: i64)
    ensures
        f == factor_of(kind, probe),
        0 <= f <= 1_000_000,
{
    let below: i64 = unit_of(probe.undergroundness);
    let above: i64 = ONE - below;
    let daylight: i64 = unit_of(probe.daylight);
    match kind {
        AmbientLayerKind::Wind => share(wind(probe.height), above),
        AmbientLayerKind::Day => share(daylight, above),
        AmbientLayerKind::Night => share(ONE - daylight, above),
        AmbientLayerKind::Water => unit_of(probe.nearby_water),
        AmbientLayerKind::Lava => unit_of(probe.nearby_lava),
        AmbientLayerKind::Cave => below,
    }
}

/// How loud a layer of some base volume is.
pub fn layer_volume(base: i64, factor: i64) -> (v: i64)
    requires
        0 <= factor <= 1_000_000,
    ensures
        v == volume_of(base as int, factor as int),
{
    proof {
        let product = base * factor;
        assert(base <= 0 ==> product <= 0) by (nonlinear_arith)
            requires
                product == base * factor,
                0 <= factor,
        ;
        assert(base > 0 ==> 0 <= product <= base * 1_000_000) by (nonlinear_arith)
            requires
                product == base * factor,
                0 <= factor <= 1_000_000,
        ;
    }
    if base <= 0 {
        return 0;
    }
    let wide: i128 = base as i128 * factor as i128 / 1_000_000;
    if wide > 1_000_000 {
        ONE
    } else {
        wide as i64
    }
}

/// How loud each layer is to be, in the order of the layers.
pub fn ambient_targets(layers: &Vec<AmbientLayerConfig>, probe: AmbientProbe) -> (targets: Vec<
    AmbientLayerTarget,
>)
    ensures
        targets@.len() == layers@.len(),
        forall|i: int|
            0 <= i < layers@.len() ==> {
                &&& (#[trigger] targets@[i]).id@ == layers@[i].id@
                &&& targets@[i].kind == layers@[i].kind
                &&& targets@[i].volume == volume_of(
                    layers@[i].base_volume as int,
                    factor_of(layers@[i].kind, probe),
                )
            },
{
    let mut targets: Vec<AmbientLayerTarget> = Vec::new();
    let mut i: usize = 0;
    while i < layers.len()
        invariant
            i <= layers@.len(),
            targets@.len() == i,
            forall|k: int|
                0 <= k < i ==> {
                    &&& (#[trigger] targets@[k]).id@ == layers@[k].id@
                    &&& targets@[k].kind == layers@[k].kind
                    &&& targets@[k].volume == volume_of(
                        layers@[k].base_volume as int,
                        factor_of(layers@[k].kind, probe),
                    )
                },
        decreases layers@.len() - i,
    {
        let layer = &layers[i];
        let factor: i64 = layer_factor(layer.kind, probe);
        targets.push(
            AmbientLayerTarget {
                id: layer.id.clone(),
                kind: layer.kind,
                volume: layer_volume(layer.base_volume, factor),
            },
        );
        i = i + 1;
    }
    targets
}

/// No layer is ever louder than full volume or than its base volume.
pub proof fn law_layers_stay_in_range(base: int, kind: AmbientLayerKind, p: AmbientProbe)
    ensures
        0 <= volume_of(base, factor_of(kind, p)) <= 1_000_000,
        0 <= base ==> volume_of(base, factor_of(kind, p)) <= base,
{
    let f = factor_of(kind, p);
    law_factor_in_range(kind, p);
    assert(0 <= base ==> 0 <= base * f <= base * 1_000_000) by (nonlinear_arith)
        requires
            0 <= f <= 1_000_000,
    ;
}

/// Between none and all of a layer is heard.
pub proof fn law_factor_in_range(kind: AmbientLayerKind, p: AmbientProbe)
    ensures
        0 <= factor_of(kind, p) <= 1_000_000,
{
    let above = 1_000_000 - unit(p.undergroundness as int);
    let d = unit(p.daylight as int);
    let w = wind_at(p.height as int);
    assert(0 <= w * above <= 1_000_000_000_000 && 0 <= d * above <= 1_000_000_000_000 && 0 <= (
    1_000_000 - d) * above <= 1_000_000_000_000) by (nonlinear_arith)
        requires
            0 <= w <= 1_000_000,
            0 <= d <= 1_000_000,
            0 <= above <= 1_000_000,
    ;
}

/// Day and night trade places: together they are heard as much as the open sky
/// is, but for one millionth lost to rounding.
pub proof fn law_day_and_night_share_the_sky(p: AmbientProbe)
    ensures
        ({
            let above = 1_000_000 - unit(p.undergroundness as int);
            let both = factor_of(AmbientLayerKind::Day, p) + factor_of(AmbientLayerKind::Night, p);
            above - 1 <= both <= above
        }),
{
    let above = 1_000_000 - unit(p.undergroundness as int);
    let d = unit(p.daylight as int);
    assert(d * above + (1_000_000 - d) * above == 1_000_000 * above) by (nonlinear_arith);
}

/// Deep below ground nothing is heard of wind, day and night.
pub proof fn law_caves_shut_out_the_sky(p: AmbientProbe)
    requires
        p.undergroundness >= 1_000_000,
    ensures
        factor_of(AmbientLayerKind::Wind, p) == 0,
        factor_of(AmbientLayerKind::Day, p) == 0,
        factor_of(AmbientLayerKind::Night, p) == 0,
        factor_of(AmbientLayerKind::Cave, p) == 1_000_000,
{
    assert(wind_at(p.height as int) * 0 == 0);
}

/// How fast a step's sound plays at a walking speed: as recorded at 5 blocks
/// per second, between 0.55 and 1.8 times that.
pub open spec fn rate_at(speed: int) -> int {
    let rate = speed / 5;
    if rate < 550_000 {
        550_000
    } else if rate > 1_800_000 {
        1_800_000
    } else {
        rate
    }
}

/// How fast a step's sound plays.
pub fn footstep_playback_rate_for_speed(horizontal_speed: i64) -> (rate: i64)
    ensures
        rate == rate_at(horizontal_speed as int),
{
    if horizontal_speed < 2_750_000 {
        550_000
    } else if horizontal_speed > 9_000_000 {
        1_800_000
    } else {
        horizontal_speed / 5
    }
}

/// Faster walkers never sound slower.
pub proof fn law_steps_speed_up(a: int, b: int)
    requires
        a <= b,
    ensures
        rate_at(a) <= rate_at(b),
{
}

/// How loud music is: the product of all volumes that bear on it, the last only
/// while the game is paused.
pub open spec fn music_gain_of(
    master: int,
    music: int,
    clip: int,
    pause: int,
    paused: bool,
) -> int {
    if paused {
        master * music * clip * pause / 1_000_000_000_000_000_000
    } else {
        master * music * clip / 1_000_000_000_000
    }
}

/// How loud music is.
pub fn music_gain(master: u32, music: u32, clip: u32, pause: u32, paused: bool) -> (gain: u128)
    ensures
        gain == music_gain_of(master as int, music as int, clip as int, pause as int, paused),
{
    let most: u128 = 0xffff_ffff;
    assert(master * music <= most * most) by (nonlinear_arith)
        requires
            master <= most,
            music <= most,
    ;
    let two: u128 = master as u128 * music as u128;
    assert(two * clip <= most * most * most) by (nonlinear_arith)
        requires
            two <= most * most,
            clip <= most,
            0 <= most,
    ;
    let three: u128 = two * clip as u128;
    if paused {
        assert(three * pause <= most * most * most * most) by (nonlinear_arith)
            requires
                three <= most * most * most,
                pause <= most,
                0 <= most,
        ;
        three * pause as u128 / 1_000_000_000_000_000_000
    } else {
        three / 1_000_000_000_000
    }
}

/// The surroundings are heard as they are. Wind grows with height; day grows with
/// daylight and night falls with it; water and lava are heard as near as they are,
/// wherever the player is; and the deeper the player is, the more is heard of caves
/// and the less of wind, day and night.
pub proof fn law_surroundings_are_heard_as_they_are(p: AmbientProbe, q: AmbientProbe)
    ensures
        p.height <= q.height && p.undergroundness == q.undergroundness ==> factor_of(
            AmbientLayerKind::Wind,
            p,
        ) <= factor_of(AmbientLayerKind::Wind, q),
        p.daylight <= q.daylight && p.undergroundness == q.undergroundness ==> factor_of(
            AmbientLayerKind::Day,
            p,
        ) <= factor_of(AmbientLayerKind::Day, q) && factor_of(AmbientLayerKind::Night, q)
            <= factor_of(AmbientLayerKind::Night, p),
        p.undergroundness <= q.undergroundness && p.height == q.height && p.daylight
            == q.daylight ==> {
            &&& factor_of(AmbientLayerKind::Cave, p) <= factor_of(AmbientLayerKind::Cave, q)
            &&& factor_of(AmbientLayerKind::Wind, q) <= factor_of(AmbientLayerKind::Wind, p)
            &&& factor_of(AmbientLayerKind::Day, q) <= factor_of(AmbientLayerKind::Day, p)
            &&& factor_of(AmbientLayerKind::Night, q) <= factor_of(AmbientLayerKind::Night, p)
        },
        0 <= p.nearby_water <= 1_000_000 ==> factor_of(AmbientLayerKind::Water, p)
            == p.nearby_water,
        0 <= p.nearby_lava <= 1_000_000 ==> factor_of(AmbientLayerKind::Lava, p) == p.nearby_lava,
        0 <= p.undergroundness <= 1_000_000 ==> factor_of(AmbientLayerKind::Cave, p)
            == p.undergroundness,
{
    let a = 1_000_000 - unit(p.undergroundness as int);
    let b = 1_000_000 - unit(q.undergroundness as int);
    let (v, w) = (wind_at(p.height as int), wind_at(q.height as int));
    let (d, e) = (unit(p.daylight as int), unit(q.daylight as int));
    lemma_share_grows(v, w, a);
    lemma_share_grows(d, e, a);
    lemma_share_grows(1_000_000 - e, 1_000_000 - d, a);
    lemma_share_grows(b, a, v);
    lemma_share_grows(b, a, d);
    lemma_share_grows(b, a, 1_000_000 - d);
}

proof fn lemma_share_grows(x: int, y: int, k: int)
    requires
        0 <= k,
    ensures
        x <= y ==> x * k / 1_000_000 <= y * k / 1_000_000,
        x * k == k * x && y * k == k * y,
{
    assert(x <= y ==> x * k <= y * k) by (nonlinear_arith)
        requires
            0 <= k,
    ;
    assert(x * k == k * x && y * k == k * y) by (nonlinear_arith);
}

} // verus!
