//! What is to be heard: which clip an event plays, when a footstep falls, and
//! which piece of music comes next.
//!
//! Volumes and rates of clips belong to whoever plays them. Times are in nanoseconds
//! of a clock that does not run backwards.

use vstd::arithmetic::div_mod::lemma_mod_bound;
use vstd::prelude::*;
use vstd::utf8::encode_utf8;

use crate::ambient::{
    ambient_targets, factor_of, volume_of, AmbientLayerTarget, AmbientProbe,
};
use crate::command::concat;
use crate::voxel::block::Block;

verus! {

/// Silence before the first piece of music, in milliseconds.
pub const MUSIC_INITIAL_SILENCE: u64 = 90_000;

/// The shortest silence between two pieces, in seconds.
pub const MUSIC_MIN_SILENCE: u64 = 150;

/// How much longer the silence may be, in seconds.
pub const MUSIC_SILENCE_RANGE: u64 = 240;

/// Fade of a footstep that ends, in milliseconds.
pub const FOOTSTEP_FADE: u64 = 320;

/// Fade of a footstep that makes way for the next, in milliseconds.
pub const FOOTSTEP_RETRIGGER_FADE: u64 = 80;

/// Why the audio backend did not start.
#[derive(Debug)]
pub enum AudioInitError {
    Backend(String),
    Track(String),
}

impl AudioInitError {
    pub open spec fn text(&self) -> Seq<char> {
        match *self {
            AudioInitError::Backend(e) => "failed to start audio backend: "@ + e@,
            AudioInitError::Track(e) => "failed to create audio mixer track: "@ + e@,
        }
    }

    pub fn message(&self) -> (r: String)
        ensures
            r@ == self.text(),
    {
        match self {
            AudioInitError::Backend(e) => concat("failed to start audio backend: ", e.as_str()),
            AudioInitError::Track(e) => concat("failed to create audio mixer track: ", e.as_str()),
        }
    }
}

/// Why a clip cannot be used.
#[derive(Debug)]
pub enum AudioAssetError {
    Missing { id: String, path: String },
    Decode { id: String, path: String, reason: String },
}

impl AudioAssetError {
    pub open spec fn text(&self) -> Seq<char> {
        match *self {
            AudioAssetError::Missing { id, path } => "audio asset `"@ + id@ + "` is missing at "@
                + path@,
            AudioAssetError::Decode { id, path, reason } => "audio asset `"@ + id@
                + "` failed to decode from "@ + path@ + ": "@ + reason@,
        }
    }

    pub fn message(&self) -> (r: String)
        ensures
            r@ == self.text(),
    {
        match self {
            AudioAssetError::Missing { id, path } => concat("audio asset `", id.as_str()).concat(
                "` is missing at ",
            ).concat(path.as_str()),
            AudioAssetError::Decode { id, path, reason } => concat(
                "audio asset `",
                id.as_str(),
            ).concat("` failed to decode from ").concat(path.as_str()).concat(": ").concat(
                reason.as_str(),
            ),
        }
    }
}

/// Why a clip was not played.
#[derive(Debug)]
pub enum AudioPlayError {
    UnavailableSound { event_kind: &'static str, sound_id: String },
    Playback { event_kind: &'static str, sound_id: String, reason: String },
}

impl AudioPlayError {
    pub open spec fn text(&self) -> Seq<char> {
        match *self {
            AudioPlayError::UnavailableSound { event_kind, sound_id } => "audio event "@
                + event_kind@ + " referenced unavailable sound `"@ + sound_id@ + "`"@,
            AudioPlayError::Playback { event_kind, sound_id, reason } => "audio event "@
                + event_kind@ + " failed for sound `"@ + sound_id@ + "`: "@ + reason@,
        }
    }

    pub fn message(&self) -> (r: String)
        ensures
            r@ == self.text(),
    {
        match self {
            AudioPlayError::UnavailableSound { event_kind, sound_id } => concat(
                "audio event ",
                event_kind,
            ).concat(" referenced unavailable sound `").concat(sound_id.as_str()).concat("`"),
            AudioPlayError::Playback { event_kind, sound_id, reason } => concat(
                "audio event ",
                event_kind,
            ).concat(" failed for sound `").concat(sound_id.as_str()).concat("`: ").concat(
                reason.as_str(),
            ),
        }
    }
}

/// A recording.
#[derive(Debug)]
pub struct AudioClip {
    pub id: String,
    pub path: String,
}

/// The pieces of music.
#[derive(Debug)]
pub struct MusicConfig {
    pub playlist: Vec<AudioClip>,
    pub shuffle: bool,
}

/// Footsteps on some kinds of block.
#[derive(Debug)]
pub struct FootstepBankConfig {
    pub id: String,
    pub material: String,
    pub blocks: Vec<Block>,
    pub clips: Vec<AudioClip>,
    /// Play the clips in turn.
    pub sequential: bool,
    pub cooldown_ms: u64,
}

/// What the player's movements sound like.
#[derive(Debug)]
pub struct PlayerAudioConfig {
    pub jump: Option<AudioClip>,
    pub land: Option<AudioClip>,
    pub footsteps: Vec<FootstepBankConfig>,
}

/// What surroundings a sound belongs to.
#[derive(Clone, Copy, Debug, PartialEq, Eq, Structural)]
pub enum AmbientLayerKind {
    Wind,
    Day,
    Night,
    Water,
    Lava,
    Cave,
}

/// A sound of the surroundings.
#[derive(Debug)]
pub struct AmbientLayerConfig {
    pub id: String,
    pub kind: AmbientLayerKind,
    pub clip: AudioClip,
    /// Loudness at most, in millionths.
    pub base_volume: i64,
}

/// The sounds a creature makes on one kind of occasion.
#[derive(Debug)]
pub struct MobVocalizationConfig {
    pub kind: String,
    pub clips: Vec<AudioClip>,
}

/// The sounds of a creature.
#[derive(Debug)]
pub struct MobSoundBankConfig {
    pub mob_id: String,
    pub vocalizations: Vec<MobVocalizationConfig>,
}

/// Everything that can be heard.
#[derive(Debug)]
pub struct AudioConfig {
    pub music: MusicConfig,
    pub click: AudioClip,
    pub player: PlayerAudioConfig,
    pub layers: Vec<AmbientLayerConfig>,
    pub mobs: Vec<MobSoundBankConfig>,
}

/// The clips of the first `n` footstep banks.
pub open spec fn footstep_clips(banks: Seq<FootstepBankConfig>, n: nat) -> Seq<AudioClip>
    decreases n,
{
    if n == 0 {
        Seq::empty()
    } else {
        footstep_clips(banks, (n - 1) as nat) + banks[n - 1].clips@
    }
}

/// The clips of the first `n` vocalizations.
pub open spec fn vocal_clips(groups: Seq<MobVocalizationConfig>, n: nat) -> Seq<AudioClip>
    decreases n,
{
    if n == 0 {
        Seq::empty()
    } else {
        vocal_clips(groups, (n - 1) as nat) + groups[n - 1].clips@
    }
}

/// The clips of the first `n` creatures.
pub open spec fn mob_clips(mobs: Seq<MobSoundBankConfig>, n: nat) -> Seq<AudioClip>
    decreases n,
{
    if n == 0 {
        Seq::empty()
    } else {
        mob_clips(mobs, (n - 1) as nat) + vocal_clips(
            mobs[n - 1].vocalizations@,
            mobs[n - 1].vocalizations@.len(),
        )
    }
}

/// A clip, where there is one.
pub open spec fn maybe_clip(clip: Option<AudioClip>) -> Seq<AudioClip> {
    match clip {
        Some(c) => seq![c],
        None => Seq::empty(),
    }
}

/// The clips that are kept in memory.
pub open spec fn memory_clips(c: AudioConfig) -> Seq<AudioClip> {
    seq![c.click] + maybe_clip(c.player.jump) + maybe_clip(c.player.land) + footstep_clips(
        c.player.footsteps@,
        c.player.footsteps@.len(),
    ) + mob_clips(c.mobs@, c.mobs@.len())
}

/// The clips behind references.
pub open spec fn clips_of(v: Seq<&AudioClip>) -> Seq<AudioClip> {
    v.map_values(|c: &AudioClip| *c)
}

/// Add clips to a list.
fn extend_clips<'a>(out: &mut Vec<&'a AudioClip>, clips: &'a Vec<AudioClip>)
    ensures
        clips_of(final(out)@) == clips_of(old(out)@) + clips@,
{
    let ghost start = clips_of(out@);
    let mut i: usize = 0;
    assert(start =~= start + clips@.take(0));
    while i < clips.len()
        invariant
            i <= clips@.len(),
            clips_of(out@) == start + clips@.take(i as int),
        decreases clips@.len() - i,
    {
        let ghost before = out@;
        out.push(&clips[i]);
        proof {
            assert(clips_of(out@) =~= clips_of(before).push(clips@[i as int]));
            assert(clips@.take(i + 1) =~= clips@.take(i as int).push(clips@[i as int]));
            assert((start + clips@.take(i as int)).push(clips@[i as int]) =~= start + clips@.take(
                i as int,
            ).push(clips@[i as int]));
        }
        i = i + 1;
    }
    assert(clips@.take(i as int) =~= clips@);
}

impl AudioConfig {
    /// The clips that are kept in memory: the click, the player's, the footsteps
    /// and the creatures'.
    pub fn static_clips(&self) -> (out: Vec<&AudioClip>)
        ensures
            clips_of(out@) == memory_clips(*self),
    {
        let mut out: Vec<&AudioClip> = Vec::new();
        out.push(&self.click);
        assert(clips_of(out@) =~= seq![self.click]);
        let ghost a = clips_of(out@);
        if let Some(clip) = &self.player.jump {
            out.push(clip);
        }
        assert(clips_of(out@) =~= a + maybe_clip(self.player.jump));
        let ghost b = clips_of(out@);
        if let Some(clip) = &self.player.land {
            out.push(clip);
        }
        assert(clips_of(out@) =~= b + maybe_clip(self.player.land));
        let ghost c = clips_of(out@);
        let mut i: usize = 0;
        assert(c =~= c + footstep_clips(self.player.footsteps@, 0));
        while i < self.player.footsteps.len()
            invariant
                i <= self.player.footsteps@.len(),
                clips_of(out@) == c + footstep_clips(self.player.footsteps@, i as nat),
            decreases self.player.footsteps@.len() - i,
        {
            let ghost so_far = footstep_clips(self.player.footsteps@, i as nat);
            extend_clips(&mut out, &self.player.footsteps[i].clips);
            assert((c + so_far) + self.player.footsteps@[i as int].clips@ =~= c + (so_far
                + self.player.footsteps@[i as int].clips@));
            i = i + 1;
        }
        let ghost d = clips_of(out@);
        let mut m: usize = 0;
        assert(d =~= d + mob_clips(self.mobs@, 0));
        while m < self.mobs.len()
            invariant
                m <= self.mobs@.len(),
                clips_of(out@) == d + mob_clips(self.mobs@, m as nat),
            decreases self.mobs@.len() - m,
        {
            let groups = &self.mobs[m].vocalizations;
            let ghost base = clips_of(out@);
            let mut g: usize = 0;
            assert(base =~= base + vocal_clips(groups@, 0));
            while g < groups.len()
                invariant
                    g <= groups@.len(),
                    clips_of(out@) == base + vocal_clips(groups@, g as nat),
                decreases groups@.len() - g,
            {
                let ghost so_far = vocal_clips(groups@, g as nat);
                extend_clips(&mut out, &groups[g].clips);
                assert((base + so_far) + groups@[g as int].clips@ =~= base + (so_far
                    + groups@[g as int].clips@));
                g = g + 1;
            }
            assert(clips_of(out@) =~= d + mob_clips(self.mobs@, (m + 1) as nat));
            m = m + 1;
        }
        assert(clips_of(out@) =~= memory_clips(*self));
        out
    }
}

/// Something to be heard.
#[derive(Debug)]
pub enum AudioEvent {
    UiClick,
    /// How the player walks: the block under their feet, the block position they
    /// are at, whether they are fast enough to be heard, and how many half
    /// strides they have taken.
    FootstepState {
        x: i32,
        y: i32,
        z: i32,
        block: Option<Block>,
        fast: bool,
        half_cycle: u32,
        walking: bool,
    },
    Jump,
    Land { block: Option<Block> },
    MusicState { day_slot: u64, paused: bool },
    /// What is heard where the player is.
    AmbientProbe(AmbientProbe),
    MobVocalize { mob_id: String, x: i32, y: i32, z: i32, kind: String },
}

/// What an event is called in messages.
pub open spec fn kind_text(e: AudioEvent) -> Seq<char> {
    match e {
        AudioEvent::UiClick => "UiClick"@,
        AudioEvent::FootstepState { .. } => "FootstepState"@,
        AudioEvent::Jump => "Jump"@,
        AudioEvent::Land { .. } => "Land"@,
        AudioEvent::MusicState { .. } => "MusicState"@,
        AudioEvent::AmbientProbe(_) => "AmbientProbe"@,
        AudioEvent::MobVocalize { .. } => "MobVocalize"@,
    }
}

impl AudioEvent {
    /// What the event is called in messages.
    pub fn kind(&self) -> (r: &'static str)
        ensures
            r@ == kind_text(*self),
    {
        match self {
            AudioEvent::UiClick => "UiClick",
            AudioEvent::FootstepState { .. } => "FootstepState",
            AudioEvent::Jump => "Jump",
            AudioEvent::Land { .. } => "Land",
            AudioEvent::MusicState { .. } => "MusicState",
            AudioEvent::AmbientProbe(_) => "AmbientProbe",
            AudioEvent::MobVocalize { .. } => "MobVocalize",
        }
    }
}

/// Whether a half stride has just been completed.
#[derive(Clone, Copy, Debug, PartialEq, Eq, Structural)]
pub struct FootstepCadence {
    pub last_half_cycle: Option<u32>,
}

/// The cadence after a frame.
pub open spec fn cadence_after(moving: bool, half_cycle: u32) -> FootstepCadence {
    FootstepCadence {
        last_half_cycle: if moving {
            Some(half_cycle)
        } else {
            None
        },
    }
}

/// Whether a step falls in a frame.
pub open spec fn step_falls(c: FootstepCadence, moving: bool, half_cycle: u32) -> bool {
    moving && match c.last_half_cycle {
        Some(last) => half_cycle > last,
        None => true,
    }
}

impl Default for FootstepCadence {
    fn default() -> (c: Self)
        ensures
            c.last_half_cycle is None,
    {
        FootstepCadence { last_half_cycle: None }
    }
}

impl FootstepCadence {
    /// Whether a step falls in this frame: with the first half stride, and
    /// whenever another is completed.
    pub fn update(&mut self, half_cycle: u32, fast: bool, grounded: bool, walking: bool) -> (
        triggered: bool)
        ensures
            triggered == step_falls(*old(self), grounded && walking && fast, half_cycle),
            *final(self) == cadence_after(grounded && walking && fast, half_cycle),
    {
        if !grounded || !walking || !fast {
            self.reset();
            return false;
        }
        let triggered: bool = match self.last_half_cycle {
            Some(last) => half_cycle > last,
            None => true,
        };
        self.last_half_cycle = Some(half_cycle);
        triggered
    }

    /// Forget the last half stride.
    pub fn reset(&mut self)
        ensures
            final(self).last_half_cycle is None,
    {
        self.last_half_cycle = None;
    }
}

/// One half stride gives one step: seeing it again gives none.
pub proof fn law_half_stride_steps_once(c: FootstepCadence, half_cycle: u32)
    ensures
        !step_falls(cadence_after(true, half_cycle), true, half_cycle),
        half_cycle < u32::MAX ==> step_falls(
            cadence_after(true, half_cycle),
            true,
            (half_cycle + 1) as u32,
        ),
{
}

/// Whether a block is listed.
pub open spec fn lists(blocks: Seq<Block>, block: Block) -> bool {
    exists|i: int| 0 <= i < blocks.len() && #[trigger] blocks[i] == block
}

/// The first footstep bank from `i` on for a block.
pub open spec fn bank_for(banks: Seq<FootstepBankConfig>, block: Block, i: int) -> Option<int>
    decreases banks.len() - i,
{
    if i >= banks.len() {
        None
    } else if lists(banks[i].blocks@, block) {
        Some(i)
    } else {
        bank_for(banks, block, i + 1)
    }
}

fn is_in_list(blocks: &Vec<Block>, block: Block) -> (b: bool)
    ensures
        b == lists(blocks@, block),
{
    let mut i: usize = 0;
    while i < blocks.len()
        invariant
            i <= blocks@.len(),
            forall|k: int| 0 <= k < i ==> #[trigger] blocks@[k] != block,
        decreases blocks@.len() - i,
    {
        if blocks[i] == block {
            assert(blocks@[i as int] == block);
            return true;
        }
        i = i + 1;
    }
    false
}

/// The first footstep bank for a block.
pub fn footstep_bank(config: &AudioConfig, block: Block) -> (r: Option<&FootstepBankConfig>)
    ensures
        match r {
            Some(b) => bank_for(config.player.footsteps@, block, 0) matches Some(i) && *b
                == config.player.footsteps@[i],
            None => bank_for(config.player.footsteps@, block, 0) is None,
        },
{
    let banks = &config.player.footsteps;
    let mut i: usize = 0;
    while i < banks.len()
        invariant
            i <= banks@.len(),
            banks@ == config.player.footsteps@,
            bank_for(banks@, block, i as int) == bank_for(banks@, block, 0),
        decreases banks@.len() - i,
    {
        if is_in_list(&banks[i].blocks, block) {
            return Some(&banks[i]);
        }
        i = i + 1;
    }
    None
}

/// The piece of music to play: the next in turn, shifted by the time of day when
/// shuffling.
pub open spec fn music_index(len: int, shuffle: bool, day_slot: u64, generation: u64) -> int {
    if shuffle {
        (day_slot + generation) % len
    } else {
        generation as int % len
    }
}

/// The piece of music to play.
pub fn current_music_clip(config: &AudioConfig, day_slot: u64, generation: u64) -> (r: Option<
    &AudioClip,
>)
    ensures
        match r {
            Some(c) => config.music.playlist@.len() > 0 && *c
                == config.music.playlist@[music_index(
                config.music.playlist@.len() as int,
                config.music.shuffle,
                day_slot,
                generation,
            )],
            None => config.music.playlist@.len() == 0,
        },
{
    let n: usize = config.music.playlist.len();
    if n == 0 {
        return None;
    }
    let sum: u128 = if config.music.shuffle {
        day_slot as u128 + generation as u128
    } else {
        generation as u128
    };
    let index: u128 = sum % (n as u128);
    Some(&config.music.playlist[index as usize])
}

/// Without shuffling, every piece is played before one is repeated: within one
/// round no two turns give the same piece.
pub proof fn law_playlist_has_no_early_repeat(len: int, a: u64, b: u64, day_slot: u64)
    requires
        0 < len,
        a < b < a + len,
    ensures
        music_index(len, false, day_slot, a) != music_index(len, false, day_slot, b),
{
    vstd::arithmetic::div_mod::lemma_fundamental_div_mod(a as int, len);
    vstd::arithmetic::div_mod::lemma_fundamental_div_mod(b as int, len);
    let qa = a as int / len;
    let qb = b as int / len;
    if a as int % len == b as int % len {
        assert(len * qb - len * qa == b - a);
        assert(len * (qb - qa) == b - a) by (nonlinear_arith)
            requires
                len * qb - len * qa == b - a,
        ;
        assert(false) by (nonlinear_arith)
            requires
                len * (qb - qa) == b - a,
                0 < b - a < len,
        ;
    }
}

/// Seconds of silence after the given number of pieces.
pub open spec fn silence_after(generation: u64) -> int {
    MUSIC_MIN_SILENCE + generation.wrapping_mul(97) as int % MUSIC_SILENCE_RANGE as int
}

/// Seconds of silence after the given number of pieces.
pub fn next_music_silence(generation: u64) -> (s: u64)
    ensures
        s == silence_after(generation),
        MUSIC_MIN_SILENCE <= s < MUSIC_MIN_SILENCE + MUSIC_SILENCE_RANGE,
{
    MUSIC_MIN_SILENCE + generation.wrapping_mul(97) % MUSIC_SILENCE_RANGE
}

/// One more value mixed into a hash.
pub open spec fn mixed(hash: u64, value: u64) -> u64 {
    (hash ^ value).wrapping_mul(0x1000_0000_01b3)
}

/// The first `n` bytes mixed into a hash.
pub open spec fn mixed_bytes(hash: u64, bytes: Seq<u8>, n: nat) -> u64
    decreases n,
{
    if n == 0 {
        hash
    } else {
        mixed(mixed_bytes(hash, bytes, (n - 1) as nat), bytes[n - 1] as u64)
    }
}

/// The number of a kind of block.
pub open spec fn block_number(block: Block) -> u64 {
    match block {
        Block::Air => 0,
        Block::Stone => 1,
        Block::Dirt => 2,
        Block::Grass => 3,
        Block::Sand => 4,
        Block::Snow => 5,
        Block::Water => 6,
        Block::Lava => 7,
        Block::Leaves => 8,
        Block::Torch => 9,
    }
}

/// A coordinate as an unsigned number of 32 bits.
pub open spec fn unsigned(v: i32) -> u64 {
    if v >= 0 {
        v as u64
    } else {
        (v + 0x1_0000_0000) as u64
    }
}

/// A number that spreads events over the clips they may play.
pub open spec fn hash_of(x: i32, y: i32, z: i32, block: Block, salt: Seq<u8>) -> u64 {
    let h = mixed_bytes(0xcbf2_9ce4_8422_2325, salt, salt.len());
    mixed(mixed(mixed(mixed(h, unsigned(x)), unsigned(y)), unsigned(z)), block_number(block))
}

fn number_of(block: Block) -> (n: u64)
    ensures
        n == block_number(block),
{
    match block {
        Block::Air => 0,
        Block::Stone => 1,
        Block::Dirt => 2,
        Block::Grass => 3,
        Block::Sand => 4,
        Block::Snow => 5,
        Block::Water => 6,
        Block::Lava => 7,
        Block::Leaves => 8,
        Block::Torch => 9,
    }
}

fn to_unsigned(v: i32) -> (r: u64)
    ensures
        r == unsigned(v),
{
    if v >= 0 {
        v as u64
    } else {
        (v as i64 + 0x1_0000_0000) as u64
    }
}

/// A number that spreads events over the clips they may play.
pub fn event_hash(x: i32, y: i32, z: i32, block: Block, salt: &[u8]) -> (h: u64)
    ensures
        h == hash_of(x, y, z, block, salt@),
{
    let mut hash: u64 = 0xcbf2_9ce4_8422_2325;
    let mut i: usize = 0;
    while i < salt.len()
        invariant
            i <= salt@.len(),
            hash == mixed_bytes(0xcbf2_9ce4_8422_2325, salt@, i as nat),
        decreases salt@.len() - i,
    {
        hash = (hash ^ (salt[i] as u64)).wrapping_mul(0x1000_0000_01b3);
        i = i + 1;
    }
    hash = (hash ^ to_unsigned(x)).wrapping_mul(0x1000_0000_01b3);
    hash = (hash ^ to_unsigned(y)).wrapping_mul(0x1000_0000_01b3);
    hash = (hash ^ to_unsigned(z)).wrapping_mul(0x1000_0000_01b3);
    (hash ^ number_of(block)).wrapping_mul(0x1000_0000_01b3)
}

/// The bytes of a number, lowest first.
pub open spec fn le_bytes(v: u32) -> Seq<u8> {
    seq![
        (v % 256) as u8,
        (v / 256 % 256) as u8,
        (v / 65536 % 256) as u8,
        (v / 16777216 % 256) as u8,
    ]
}

fn to_le(v: u32) -> (r: Vec<u8>)
    ensures
        r@ == le_bytes(v),
{
    let r = vec![
        (v % 256) as u8,
        (v / 256 % 256) as u8,
        (v / 65536 % 256) as u8,
        (v / 16777216 % 256) as u8,
    ];
    assert(r@ =~= le_bytes(v));
    r
}

/// How far each footstep bank has come.
#[derive(Debug)]
pub struct Sequences {
    entries: Vec<(String, usize)>,
}

/// The position of a bank's entry from `i` on; the number of entries if there is
/// none.
pub open spec fn entry_position(s: Seq<(Seq<char>, usize)>, id: Seq<char>, i: int) -> int
    decreases s.len() - i,
{
    if i >= s.len() {
        s.len() as int
    } else if s[i].0 == id {
        i
    } else {
        entry_position(s, id, i + 1)
    }
}

/// The clip that is next in a bank's turn.
pub open spec fn turn_of(s: Seq<(Seq<char>, usize)>, id: Seq<char>) -> usize {
    let p = entry_position(s, id, 0);
    if p < s.len() {
        s[p].1
    } else {
        0
    }
}

/// The turns after a bank's has been set.
pub open spec fn with_turn(s: Seq<(Seq<char>, usize)>, id: Seq<char>, turn: usize) -> Seq<
    (Seq<char>, usize),
> {
    let p = entry_position(s, id, 0);
    if p < s.len() {
        s.update(p, (id, turn))
    } else {
        s.push((id, turn))
    }
}

impl Sequences {
    /// The next clip of every bank that has played.
    pub closed spec fn turns(&self) -> Seq<(Seq<char>, usize)> {
        self.entries@.map_values(|e: (String, usize)| (e.0@, e.1))
    }

    pub fn new() -> (s: Self)
        ensures
            s.turns() == Seq::<(Seq<char>, usize)>::empty(),
    {
        let s = Sequences { entries: Vec::new() };
        assert(s.turns() =~= Seq::<(Seq<char>, usize)>::empty());
        s
    }

    /// The clip that is next in a bank's turn.
    pub fn next_sequence_index(&mut self, bank_id: &str, clip_count: usize) -> (index: usize)
        requires
            clip_count > 0,
        ensures
            index == turn_of(old(self).turns(), bank_id@) % clip_count,
            index < clip_count,
            final(self).turns() == with_turn(
                old(self).turns(),
                bank_id@,
                (index + 1) as usize,
            ),
    {
        let target = bank_id.to_owned();
        let ghost start = self.turns();
        let mut i: usize = 0;
        while i < self.entries.len()
            invariant
                i <= self.entries@.len(),
                start == self.turns(),
                *self == *old(self),
                target@ == bank_id@,
                clip_count > 0,
                start.len() == self.entries@.len(),
                entry_position(start, bank_id@, i as int) == entry_position(start, bank_id@, 0),
            decreases self.entries@.len() - i,
        {
            assert(start[i as int] == (self.entries@[i as int].0@, self.entries@[i as int].1));
            if self.entries[i].0 == target {
                let index: usize = self.entries[i].1 % clip_count;
                self.entries.set(i, (target, index + 1));
                assert(self.turns() =~= start.update(i as int, (bank_id@, (index + 1) as usize)));
                return index;
            }
            i = i + 1;
        }
        self.entries.push((target, 1));
        proof {
            assert(self.turns() =~= start.push((bank_id@, 1usize)));
            assert(0usize % clip_count == 0) by (nonlinear_arith)
                requires
                    clip_count > 0,
            ;
        }
        0
    }
}

/// A bank that plays its clips in turn plays them in order: after clip `i` comes
/// clip `i + 1`, and after the last the first.
pub proof fn law_clips_play_in_turn(s: Seq<(Seq<char>, usize)>, id: Seq<char>, count: usize)
    requires
        count > 0,
    ensures
        ({
            let index = turn_of(s, id) % count;
            let next = turn_of(with_turn(s, id, (index + 1) as usize), id) % count;
            next == if index + 1 == count {
                0
            } else {
                index + 1
            }
        }),
{
    let index = turn_of(s, id) % count;
    let turn = (index + 1) as usize;
    lemma_entry_position(s, id, 0);
    let w = with_turn(s, id, turn);
    lemma_entry_kept(s, w, id, 0);
    assert(turn_of(w, id) == turn);
    if index + 1 == count {
        assert(turn % count == 0) by (nonlinear_arith)
            requires
                turn == count,
                count > 0,
        ;
    } else {
        assert(turn % count == turn) by (nonlinear_arith)
            requires
                turn < count,
        ;
    }
}

proof fn lemma_entry_position(s: Seq<(Seq<char>, usize)>, id: Seq<char>, i: int)
    requires
        0 <= i <= s.len(),
    ensures
        i <= entry_position(s, id, i) <= s.len(),
        entry_position(s, id, i) < s.len() ==> s[entry_position(s, id, i)].0 == id,
    decreases s.len() - i,
{
    if i < s.len() {
        lemma_entry_position(s, id, i + 1);
    }
}

proof fn lemma_entry_kept(
    s: Seq<(Seq<char>, usize)>,
    w: Seq<(Seq<char>, usize)>,
    id: Seq<char>,
    i: int,
)
    requires
        0 <= i <= s.len(),
        s.len() <= w.len() <= s.len() + 1,
        forall|k: int| 0 <= k < s.len() ==> (#[trigger] w[k]).0 == s[k].0,
        w.len() == s.len() + 1 ==> w[s.len() as int].0 == id,
    ensures
        entry_position(w, id, i) == entry_position(s, id, i),
    decreases s.len() - i,
{
    if i < s.len() {
        assert(w[i].0 == s[i].0);
        lemma_entry_kept(s, w, id, i + 1);
    }
}

/// The clip of a bank that a step plays.
pub open spec fn step_clip(
    bank: FootstepBankConfig,
    turns: Seq<(Seq<char>, usize)>,
    hash: u64,
) -> int {
    if bank.sequential {
        (turn_of(turns, bank.id@) % bank.clips@.len() as usize) as int
    } else {
        hash as int % bank.clips@.len() as int
    }
}

/// The turns after a step: only banks that play in turn move on.
pub open spec fn turns_after(
    bank: FootstepBankConfig,
    turns: Seq<(Seq<char>, usize)>,
    hash: u64,
) -> Seq<(Seq<char>, usize)> {
    if bank.sequential {
        with_turn(turns, bank.id@, (step_clip(bank, turns, hash) + 1) as usize)
    } else {
        turns
    }
}

/// Choose the clip of a bank that a step plays.
fn choose_step_clip(bank: &FootstepBankConfig, sequences: &mut Sequences, hash: u64) -> (i: usize)
    requires
        bank.clips@.len() > 0,
    ensures
        i == step_clip(*bank, old(sequences).turns(), hash),
        i < bank.clips@.len(),
        final(sequences).turns() == turns_after(*bank, old(sequences).turns(), hash),
{
    let n: usize = bank.clips.len();
    if bank.sequential {
        sequences.next_sequence_index(bank.id.as_str(), n)
    } else {
        (hash as u128 % n as u128) as usize
    }
}

/// The footsteps: cadence, turns, which bank is sounding, and when the next step
/// may fall.
#[derive(Debug)]
pub struct Footsteps {
    pub cadence: FootstepCadence,
    pub sequences: Sequences,
    pub active_bank: Option<String>,
    pub next_at: u64,
}

/// Footsteps as plain mathematical values.
#[verifier::ext_equal]
pub struct FootstepsView {
    pub cadence: FootstepCadence,
    pub turns: Seq<(Seq<char>, usize)>,
    pub active: Option<Seq<char>>,
    pub next_at: u64,
}

/// What a frame does to the footsteps: a sounding step fades out over the given
/// milliseconds, and a clip of the bank is played.
#[verifier::ext_equal]
pub struct StepPlan {
    pub stop: Option<u64>,
    pub play: Option<(int, u64)>,
}

impl View for Footsteps {
    type V = FootstepsView;

    open spec fn view(&self) -> FootstepsView {
        FootstepsView {
            cadence: self.cadence,
            turns: self.sequences.turns(),
            active: match self.active_bank {
                Some(b) => Some(b@),
                None => None,
            },
            next_at: self.next_at,
        }
    }
}

/// The time a number of milliseconds later, within range.
pub open spec fn later(now: u64, ms: u64) -> u64 {
    if now + ms * 1_000_000 > u64::MAX {
        u64::MAX
    } else {
        (now + ms * 1_000_000) as u64
    }
}

fn time_after(now: u64, ms: u64) -> (t: u64)
    ensures
        t == later(now, ms),
{
    let t: u128 = now as u128 + ms as u128 * 1_000_000;
    if t > u64::MAX as u128 {
        u64::MAX
    } else {
        t as u64
    }
}

/// A fade of what is sounding, if anything is.
pub open spec fn fade(s: FootstepsView, ms: u64) -> Option<u64> {
    if s.active is Some {
        Some(ms)
    } else {
        None
    }
}

/// Footsteps that fell silent.
pub open spec fn hushed(s: FootstepsView) -> FootstepsView {
    FootstepsView { cadence: FootstepCadence { last_half_cycle: None }, active: None, ..s }
}

/// What a frame of walking does.
pub open spec fn walk(
    config: AudioConfig,
    s: FootstepsView,
    pos: (i32, i32, i32),
    block: Option<Block>,
    fast: bool,
    half_cycle: u32,
    walking: bool,
    now: u64,
) -> (FootstepsView, StepPlan) {
    let silent = (hushed(s), StepPlan { stop: fade(s, FOOTSTEP_FADE), play: None });
    match block {
        None => silent,
        Some(b) => if !(walking && fast) {
            silent
        } else {
            match bank_for(config.player.footsteps@, b, 0) {
                None => silent,
                Some(i) => {
                    let bank = config.player.footsteps@[i];
                    if bank.clips@.len() == 0 {
                        silent
                    } else {
                        let changed = s.active is Some && s.active != Some(bank.id@);
                        let t = if changed {
                            hushed(s)
                        } else {
                            s
                        };
                        let stop = if changed {
                            fade(s, FOOTSTEP_FADE)
                        } else {
                            None
                        };
                        let u = FootstepsView { cadence: cadence_after(true, half_cycle), ..t };
                        if !step_falls(t.cadence, true, half_cycle) || now < t.next_at {
                            (u, StepPlan { stop, play: None })
                        } else {
                            let hash = hash_of(pos.0, pos.1, pos.2, b, le_bytes(half_cycle));
                            (
                                FootstepsView {
                                    turns: turns_after(bank, u.turns, hash),
                                    active: None,
                                    next_at: later(now, bank.cooldown_ms),
                                    ..u
                                },
                                StepPlan {
                                    stop: if changed {
                                        stop
                                    } else {
                                        fade(t, FOOTSTEP_RETRIGGER_FADE)
                                    },
                                    play: Some((step_clip(bank, u.turns, hash), hash)),
                                },
                            )
                        }
                    }
                },
            }
        },
    }
}

/// What a frame of walking does to what is heard.
pub struct StepDecision<'a> {
    /// Fade of the step that is sounding, in milliseconds.
    pub stop: Option<u64>,
    /// The bank and clip to play, and the hash its loudness varies by.
    pub play: Option<(&'a FootstepBankConfig, usize, u64)>,
}

/// A decision as plain mathematical values.
pub open spec fn plan_of(d: StepDecision<'_>) -> StepPlan {
    StepPlan {
        stop: d.stop,
        play: match d.play {
            Some((_, i, h)) => Some((i as int, h)),
            None => None,
        },
    }
}

impl Footsteps {
    /// No step taken, with the next allowed from `now` on.
    pub fn new(now: u64) -> (f: Self)
        ensures
            f@ == (FootstepsView {
                cadence: FootstepCadence { last_half_cycle: None },
                turns: Seq::empty(),
                active: None,
                next_at: now,
            }),
    {
        Footsteps {
            cadence: FootstepCadence { last_half_cycle: None },
            sequences: Sequences::new(),
            active_bank: None,
            next_at: now,
        }
    }

    /// Fall silent.
    fn hush(&mut self) -> (stop: Option<u64>)
        ensures
            final(self)@ == hushed(old(self)@),
            stop == fade(old(self)@, FOOTSTEP_FADE),
    {
        let stop: Option<u64> = if self.active_bank.is_some() {
            Some(FOOTSTEP_FADE)
        } else {
            None
        };
        self.cadence.reset();
        self.active_bank = None;
        stop
    }

    /// Decide what a frame of walking does: whether the sounding step stops, and
    /// which clip is played.
    pub fn update_footstep_state<'a>(
        &mut self,
        config: &'a AudioConfig,
        pos: (i32, i32, i32),
        block: Option<Block>,
        fast: bool,
        half_cycle: u32,
        walking: bool,
        now: u64,
    ) -> (d: StepDecision<'a>)
        ensures
            ({
                let (after, plan) = walk(
                    *config,
                    old(self)@,
                    pos,
                    block,
                    fast,
                    half_cycle,
                    walking,
                    now,
                );
                &&& final(self)@ == after
                &&& plan_of(d) == plan
            }),
            d.play matches Some((bank, i, _)) ==> block matches Some(b) && (bank_for(
                config.player.footsteps@,
                b,
                0,
            ) matches Some(k) && *bank == config.player.footsteps@[k] && i < bank.clips@.len()),
    {
        let heard: Option<Block> = if walking && fast {
            block
        } else {
            None
        };
        let b = match heard {
            Some(b) => b,
            None => {
                let stop = self.hush();
                return StepDecision { stop, play: None };
            },
        };
        let bank = match footstep_bank(config, b) {
            Some(bank) => bank,
            None => {
                let stop = self.hush();
                return StepDecision { stop, play: None };
            },
        };
        if bank.clips.len() == 0 {
            let stop = self.hush();
            return StepDecision { stop, play: None };
        }
        let changed: bool = match &self.active_bank {
            Some(id) => !(*id == bank.id),
            None => false,
        };
        let mut stop: Option<u64> = None;
        if changed {
            stop = self.hush();
        }
        if !self.cadence.update(half_cycle, fast, true, walking) {
            return StepDecision { stop, play: None };
        }
        if now < self.next_at {
            return StepDecision { stop, play: None };
        }
        self.next_at = time_after(now, bank.cooldown_ms);
        let salt = to_le(half_cycle);
        let hash: u64 = event_hash(pos.0, pos.1, pos.2, b, salt.as_slice());
        let i: usize = choose_step_clip(bank, &mut self.sequences, hash);
        if self.active_bank.is_some() {
            stop = Some(FOOTSTEP_RETRIGGER_FADE);
        }
        self.active_bank = None;
        StepDecision { stop, play: Some((bank, i, hash)) }
    }

    /// Note that a step of a bank is sounding.
    pub fn step_started(&mut self, bank_id: &str)
        ensures
            final(self)@ == (FootstepsView { active: Some(bank_id@), ..old(self)@ }),
    {
        self.active_bank = Some(bank_id.to_owned());
    }
}

/// At most one step sounds at a time: whenever a clip is played, a step that was
/// sounding is stopped.
pub proof fn law_one_step_at_a_time(
    config: AudioConfig,
    s: FootstepsView,
    pos: (i32, i32, i32),
    block: Option<Block>,
    fast: bool,
    half_cycle: u32,
    walking: bool,
    now: u64,
)
    ensures
        ({
            let (after, plan) = walk(config, s, pos, block, fast, half_cycle, walking, now);
            &&& plan.play is Some && s.active is Some ==> plan.stop is Some
            &&& plan.stop is Some ==> s.active is Some && after.active is None
        }),
{
}

/// Steps keep their distance: none falls before the time that the last allowed.
pub proof fn law_steps_respect_cooldown(
    config: AudioConfig,
    s: FootstepsView,
    pos: (i32, i32, i32),
    block: Option<Block>,
    fast: bool,
    half_cycle: u32,
    walking: bool,
    now: u64,
)
    requires
        now < s.next_at,
    ensures
        walk(config, s, pos, block, fast, half_cycle, walking, now).1.play is None,
{
}

/// The clip that landing plays: the first footstep of the surface, or else the
/// landing clip.
pub open spec fn landing_clip(config: AudioConfig, block: Option<Block>) -> Option<AudioClip> {
    let surface: Option<AudioClip> = match block {
        Some(b) => match bank_for(config.player.footsteps@, b, 0) {
            Some(i) => if config.player.footsteps@[i].clips@.len() > 0 {
                Some(config.player.footsteps@[i].clips@[0])
            } else {
                None
            },
            None => None,
        },
        None => None,
    };
    match surface {
        Some(c) => Some(c),
        None => config.player.land,
    }
}

/// A clip behind an optional reference.
pub open spec fn clip_of(c: Option<&AudioClip>) -> Option<AudioClip> {
    match c {
        Some(c) => Some(*c),
        None => None,
    }
}

/// The clip that landing plays.
pub fn land_clip(config: &AudioConfig, block: Option<Block>) -> (r: Option<&AudioClip>)
    ensures
        clip_of(r) == landing_clip(*config, block),
{
    if let Some(b) = block {
        if let Some(bank) = footstep_bank(config, b) {
            if bank.clips.len() > 0 {
                return Some(&bank.clips[0]);
            }
        }
    }
    config.player.land.as_ref()
}

/// The first creature from `i` on with a name.
pub open spec fn mob_named(mobs: Seq<MobSoundBankConfig>, id: Seq<char>, i: int) -> Option<int>
    decreases mobs.len() - i,
{
    if i >= mobs.len() {
        None
    } else if mobs[i].mob_id@ == id {
        Some(i)
    } else {
        mob_named(mobs, id, i + 1)
    }
}

/// The first vocalization from `i` on of a kind.
pub open spec fn vocal_kind(groups: Seq<MobVocalizationConfig>, kind: Seq<char>, i: int) -> Option<
    int,
>
    decreases groups.len() - i,
{
    if i >= groups.len() {
        None
    } else if groups[i].kind@ == kind {
        Some(i)
    } else {
        vocal_kind(groups, kind, i + 1)
    }
}

/// The clip that a creature's voice plays.
pub open spec fn voice_clip(
    config: AudioConfig,
    mob: Seq<char>,
    x: i32,
    y: i32,
    z: i32,
    kind: Seq<char>,
) -> Option<AudioClip> {
    match mob_named(config.mobs@, mob, 0) {
        None => None,
        Some(m) => match vocal_kind(config.mobs@[m].vocalizations@, kind, 0) {
            None => None,
            Some(g) => {
                let clips = config.mobs@[m].vocalizations@[g].clips@;
                if clips.len() == 0 {
                    None
                } else {
                    let salt = encode_utf8(mob + ":"@ + kind);
                    Some(clips[hash_of(x, y, z, Block::Air, salt) as int % clips.len() as int])
                }
            },
        },
    }
}

/// The clip that a creature's voice plays: the creature and the occasion pick
/// the group, and the place picks the clip.
pub fn vocal_clip<'a>(
    config: &'a AudioConfig,
    mob_id: &String,
    x: i32,
    y: i32,
    z: i32,
    kind: &String,
) -> (r: Option<&'a AudioClip>)
    ensures
        clip_of(r) == voice_clip(*config, mob_id@, x, y, z, kind@),
{
    let mut m: usize = 0;
    while m < config.mobs.len()
        invariant
            m <= config.mobs@.len(),
            mob_named(config.mobs@, mob_id@, m as int) == mob_named(config.mobs@, mob_id@, 0),
        decreases config.mobs@.len() - m,
    {
        if config.mobs[m].mob_id == *mob_id {
            let groups = &config.mobs[m].vocalizations;
            let mut g: usize = 0;
            while g < groups.len()
                invariant
                    g <= groups@.len(),
                    m < config.mobs@.len(),
                    groups == config.mobs@[m as int].vocalizations,
                    mob_named(config.mobs@, mob_id@, 0) == Some(m as int),
                    vocal_kind(groups@, kind@, g as int) == vocal_kind(groups@, kind@, 0),
                decreases groups@.len() - g,
            {
                if groups[g].kind == *kind {
                    let n: usize = groups[g].clips.len();
                    if n == 0 {
                        return None;
                    }
                    let name = concat(mob_id.as_str(), ":").concat(kind.as_str());
                    let hash: u64 = event_hash(x, y, z, Block::Air, name.as_str().as_bytes());
                    let i: u128 = hash as u128 % n as u128;
                    return Some(&groups[g].clips[i as usize]);
                }
                g = g + 1;
            }
            return None;
        }
        m = m + 1;
    }
    None
}

/// What music does.
#[derive(Clone, Copy, Debug, PartialEq, Eq, Structural)]
pub struct Music {
    pub playing: bool,
    pub next_at: u64,
    pub generation: u64,
}

/// What to do about music in a frame.
#[derive(Clone, Copy, Debug, PartialEq, Eq, Structural)]
pub enum MusicAction {
    /// Leave things as they are.
    Wait,
    /// A piece is playing: set its loudness.
    SetVolume,
    /// Start the next piece.
    Start,
}

/// Music after its piece may have ended.
pub open spec fn after_ending(m: Music, ended: bool, now: u64) -> Music {
    if m.playing && ended {
        Music {
            playing: false,
            next_at: later(now, (silence_after(m.generation) * 1000) as u64),
            ..m
        }
    } else {
        m
    }
}

/// What to do about music in a frame.
pub open spec fn music_action(m: Music, paused: bool, now: u64) -> MusicAction {
    if m.playing {
        MusicAction::SetVolume
    } else if paused || now < m.next_at {
        MusicAction::Wait
    } else {
        MusicAction::Start
    }
}

impl Music {
    /// Silence before the first piece.
    pub fn new(now: u64) -> (m: Self)
        ensures
            m == (Music { playing: false, next_at: later(now, MUSIC_INITIAL_SILENCE), generation: 0 }),
    {
        Music { playing: false, next_at: time_after(now, MUSIC_INITIAL_SILENCE), generation: 0 }
    }

    /// Decide what to do about music in a frame. `ended` tells whether the piece
    /// that was playing has stopped.
    pub fn update(&mut self, ended: bool, paused: bool, now: u64) -> (a: MusicAction)
        ensures
            *final(self) == after_ending(*old(self), ended, now),
            a == music_action(*final(self), paused, now),
    {
        if self.playing && ended {
            self.playing = false;
            let silence: u64 = next_music_silence(self.generation);
            self.next_at = time_after(now, silence * 1000);
        }
        if self.playing {
            MusicAction::SetVolume
        } else if paused || now < self.next_at {
            MusicAction::Wait
        } else {
            MusicAction::Start
        }
    }

    /// Note that a piece has started.
    pub fn started(&mut self)
        ensures
            *final(self) == (Music {
                playing: true,
                generation: crate::voxel::world::next_version(old(self).generation),
                ..*old(self)
            }),
    {
        self.playing = true;
        self.generation = crate::voxel::world::bump(self.generation);
    }
}

/// No piece starts while the game is paused, while another plays, or before the
/// silence is over.
pub proof fn law_music_waits_its_turn(m: Music, paused: bool, now: u64)
    ensures
        music_action(m, paused, now) == MusicAction::Start ==> !paused && !m.playing && now
            >= m.next_at,
{
}

/// Routes events without a sound device and notes the clips that would play and
/// how loud the surroundings would be.
#[derive(Debug)]
pub struct NullRuntime {
    pub played: Vec<String>,
    pub cadence: FootstepCadence,
    pub sequences: Sequences,
    /// How loud the layers are to be, as last heard.
    pub ambient_targets: Vec<AmbientLayerTarget>,
}

/// How loud each named layer is to be, by the first `n` targets; of two with
/// one name the later counts.
pub open spec fn targets_map(targets: Seq<AmbientLayerTarget>, n: nat) -> Map<Seq<char>, i64>
    decreases n,
{
    if n == 0 {
        Map::empty()
    } else {
        targets_map(targets, (n - 1) as nat).insert(targets[n - 1].id@, targets[n - 1].volume)
    }
}

/// How loud each named layer is to be where `probe` was taken, by the first `n`
/// layers; of two with one name the later counts.
pub open spec fn layers_map(
    layers: Seq<AmbientLayerConfig>,
    probe: AmbientProbe,
    n: nat,
) -> Map<Seq<char>, i64>
    decreases n,
{
    if n == 0 {
        Map::empty()
    } else {
        let layer = layers[n - 1];
        layers_map(layers, probe, (n - 1) as nat).insert(
            layer.id@,
            volume_of(layer.base_volume as int, factor_of(layer.kind, probe)) as i64,
        )
    }
}

proof fn lemma_targets_map(
    targets: Seq<AmbientLayerTarget>,
    layers: Seq<AmbientLayerConfig>,
    probe: AmbientProbe,
    n: nat,
)
    requires
        n <= layers.len(),
        targets.len() == layers.len(),
        forall|i: int|
            0 <= i < layers.len() ==> (#[trigger] targets[i]).id@ == layers[i].id@
                && targets[i].volume == volume_of(
                layers[i].base_volume as int,
                factor_of(layers[i].kind, probe),
            ),
    ensures
        targets_map(targets, n) == layers_map(layers, probe, n),
    decreases n,
{
    if n > 0 {
        lemma_targets_map(targets, layers, probe, (n - 1) as nat);
        assert(targets[n - 1].id@ == layers[n - 1].id@);
    }
}

/// A null runtime as plain mathematical values.
#[verifier::ext_equal]
pub struct NullView {
    pub played: Seq<Seq<char>>,
    pub cadence: FootstepCadence,
    pub turns: Seq<(Seq<char>, usize)>,
    pub ambient: Map<Seq<char>, i64>,
}

impl View for NullRuntime {
    type V = NullView;

    open spec fn view(&self) -> NullView {
        NullView {
            played: crate::command::texts(self.played@),
            cadence: self.cadence,
            turns: self.sequences.turns(),
            ambient: targets_map(self.ambient_targets@, self.ambient_targets@.len()),
        }
    }
}

/// One more clip noted.
pub open spec fn noted(s: NullView, id: Seq<char>) -> NullView {
    NullView { played: s.played.push(id), ..s }
}

/// What an event does to a null runtime.
pub open spec fn null_after(config: AudioConfig, s: NullView, event: AudioEvent) -> NullView {
    match event {
        AudioEvent::UiClick => noted(s, config.click.id@),
        AudioEvent::Jump => match config.player.jump {
            Some(c) => noted(s, c.id@),
            None => s,
        },
        AudioEvent::Land { block } => match landing_clip(config, block) {
            Some(c) => noted(s, c.id@),
            None => s,
        },
        AudioEvent::FootstepState { x, y, z, block, fast, half_cycle, walking } => match block {
            Some(b) => if walking {
                match bank_for(config.player.footsteps@, b, 0) {
                    Some(i) => {
                        let bank = config.player.footsteps@[i];
                        if fast && bank.clips@.len() > 0 {
                            let t = NullView { cadence: cadence_after(true, half_cycle), ..s };
                            if step_falls(s.cadence, true, half_cycle) {
                                let hash = hash_of(x, y, z, b, le_bytes(half_cycle));
                                noted(
                                    NullView { turns: turns_after(bank, s.turns, hash), ..t },
                                    bank.clips@[step_clip(bank, s.turns, hash)].id@,
                                )
                            } else {
                                t
                            }
                        } else {
                            s
                        }
                    },
                    None => s,
                }
            } else {
                NullView { cadence: FootstepCadence { last_half_cycle: None }, ..s }
            },
            None => NullView { cadence: FootstepCadence { last_half_cycle: None }, ..s },
        },
        AudioEvent::AmbientProbe(probe) => NullView {
            ambient: layers_map(config.layers@, probe, config.layers@.len()),
            ..s
        },
        _ => s,
    }
}

impl NullRuntime {
    pub fn new() -> (r: Self)
        ensures
            r@ == (NullView {
                played: Seq::empty(),
                cadence: FootstepCadence { last_half_cycle: None },
                turns: Seq::empty(),
                ambient: Map::empty(),
            }),
    {
        let r = NullRuntime {
            played: Vec::new(),
            cadence: FootstepCadence { last_half_cycle: None },
            sequences: Sequences::new(),
            ambient_targets: Vec::new(),
        };
        assert(r@.played =~= Seq::empty());
        r
    }

    /// Note a clip.
    fn note(&mut self, id: &String)
        ensures
            final(self)@ == noted(old(self)@, id@),
    {
        let ghost before = self.played@;
        self.played.push(id.clone());
        assert(crate::command::texts(self.played@) =~= crate::command::texts(before).push(id@));
    }

    /// Route one event.
    pub fn handle_event(&mut self, config: &AudioConfig, event: &AudioEvent)
        ensures
            final(self)@ == null_after(*config, old(self)@, *event),
    {
        match event {
            AudioEvent::UiClick => self.note(&config.click.id),
            AudioEvent::Jump => {
                if let Some(clip) = &config.player.jump {
                    self.note(&clip.id);
                }
            },
            AudioEvent::Land { block } => {
                if let Some(clip) = land_clip(config, *block) {
                    self.note(&clip.id);
                }
            },
            AudioEvent::FootstepState { x, y, z, block, fast, half_cycle, walking } => {
                match block {
                    Some(b) => {
                        if *walking {
                            if let Some(bank) = footstep_bank(config, *b) {
                                if *fast && bank.clips.len() > 0 {
                                    if self.cadence.update(*half_cycle, *fast, true, true) {
                                        let salt = to_le(*half_cycle);
                                        let hash: u64 = event_hash(*x, *y, *z, *b, salt.as_slice());
                                        let i: usize = choose_step_clip(
                                            bank,
                                            &mut self.sequences,
                                            hash,
                                        );
                                        self.note(&bank.clips[i].id);
                                    }
                                }
                            }
                        } else {
                            self.cadence.reset();
                        }
                    },
                    None => {
                        self.cadence.reset();
                    },
                }
            },
            AudioEvent::MusicState { .. } => {},
            AudioEvent::AmbientProbe(probe) => {
                self.ambient_targets = ambient_targets(&config.layers, *probe);
                proof {
                    lemma_targets_map(
                        self.ambient_targets@,
                        config.layers@,
                        *probe,
                        config.layers@.len(),
                    );
                }
            },
            AudioEvent::MobVocalize { .. } => {},
        }
    }
}

/// What an event asks for.
#[derive(Clone, Copy, Debug)]
pub enum Cue<'a> {
    /// Play a clip from memory.
    Play(&'a AudioClip),
    /// Bring the footsteps up to date.
    Footsteps,
    /// Bring the music up to date.
    Music,
    /// Bring the sounds of the surroundings up to date.
    Ambient(AmbientProbe),
    /// Nothing is to be heard.
    Silent,
}

/// The clip that an event plays from memory.
pub open spec fn event_clip(config: AudioConfig, event: AudioEvent) -> Option<AudioClip> {
    match event {
        AudioEvent::UiClick => Some(config.click),
        AudioEvent::Jump => config.player.jump,
        AudioEvent::Land { block } => landing_clip(config, block),
        AudioEvent::MobVocalize { mob_id, x, y, z, kind } => voice_clip(
            config,
            mob_id@,
            x,
            y,
            z,
            kind@,
        ),
        _ => None,
    }
}

/// A clip as a cue, or silence.
fn clip_cue<'a>(clip: Option<&'a AudioClip>) -> (c: Cue<'a>)
    ensures
        match clip {
            Some(x) => c matches Cue::Play(y) && *y == *x,
            None => c is Silent,
        },
{
    match clip {
        Some(x) => Cue::Play(x),
        None => Cue::Silent,
    }
}

/// What an event asks for.
pub fn cue_for<'a>(config: &'a AudioConfig, event: &AudioEvent) -> (c: Cue<'a>)
    ensures
        match *event {
            AudioEvent::FootstepState { .. } => c is Footsteps,
            AudioEvent::MusicState { .. } => c is Music,
            AudioEvent::AmbientProbe(probe) => c matches Cue::Ambient(p) && p == probe,
            _ => match event_clip(*config, *event) {
                Some(x) => c matches Cue::Play(y) && *y == x,
                None => c is Silent,
            },
        },
{
    match event {
        AudioEvent::UiClick => Cue::Play(&config.click),
        AudioEvent::FootstepState { .. } => Cue::Footsteps,
        AudioEvent::Jump => clip_cue(config.player.jump.as_ref()),
        AudioEvent::Land { block } => clip_cue(land_clip(config, *block)),
        AudioEvent::MusicState { .. } => Cue::Music,
        AudioEvent::AmbientProbe(probe) => Cue::Ambient(*probe),
        AudioEvent::MobVocalize { mob_id, x, y, z, kind } => clip_cue(
            vocal_clip(config, mob_id, *x, *y, *z, kind),
        ),
    }
}

/// Bank `k` is the one for a block: the first that lists it.
pub open spec fn bank_of(banks: Seq<FootstepBankConfig>, block: Block, k: int) -> bool {
    &&& 0 <= k < banks.len()
    &&& exists|i: int| 0 <= i < banks[k].blocks@.len() && #[trigger] banks[k].blocks@[i] == block
    &&& forall|j: int, i: int|
        0 <= j < k && 0 <= i < banks[j].blocks@.len() ==> #[trigger] banks[j].blocks@[i] != block
}

proof fn lemma_bank_of(banks: Seq<FootstepBankConfig>, block: Block, k: int, from: int)
    requires
        0 <= from <= banks.len(),
    ensures
        bank_of(banks, block, k) && from <= k ==> bank_for(banks, block, from) == Some(k),
        bank_for(banks, block, from) matches Some(j) ==> from <= j < banks.len() && lists(
            banks[j].blocks@,
            block,
        ) && forall|i: int| from <= i < j ==> !lists((#[trigger] banks[i]).blocks@, block),
        bank_for(banks, block, from) is None ==> forall|i: int|
            from <= i < banks.len() ==> !lists((#[trigger] banks[i]).blocks@, block),
    decreases banks.len() - from,
{
    if from < banks.len() {
        lemma_bank_of(banks, block, k, from + 1);
        if bank_of(banks, block, k) && from < k {
            assert(!lists(banks[from].blocks@, block));
        }
        if !lists(banks[from].blocks@, block) {
            if let Some(j) = bank_for(banks, block, from) {
                assert forall|i: int| from <= i < j implies !lists(
                    (#[trigger] banks[i]).blocks@,
                    block,
                ) by {
                    assert(i == from || from + 1 <= i);
                }
            } else {
                assert forall|i: int| from <= i < banks.len() implies !lists(
                    (#[trigger] banks[i]).blocks@,
                    block,
                ) by {
                    assert(i == from || from + 1 <= i);
                }
            }
        }
    }
}

proof fn lemma_step_clip_range(
    bank: FootstepBankConfig,
    turns: Seq<(Seq<char>, usize)>,
    hash: u64,
)
    requires
        bank.clips@.len() > 0,
    ensures
        0 <= step_clip(bank, turns, hash) < bank.clips@.len(),
{
    let n = bank.clips@.len() as int;
    assert(bank.clips.len() == n);
    lemma_mod_bound(hash as int, n);
    lemma_mod_bound(turn_of(turns, bank.id@) as int, n);
}

/// Walking is heard, by the ground walked on. On a block with a bank of its own a
/// step is played just when the player walks fast enough, the time for the next step
/// has come, and another half stride is completed or the ground has changed. The
/// clip is one of that bank's, and the next step waits for the bank's pause.
#[verifier::spinoff_prover]
#[verifier::rlimit(40)]
pub proof fn law_walking_is_heard_by_its_ground(
    config: AudioConfig,
    s: FootstepsView,
    pos: (i32, i32, i32),
    block: Block,
    fast: bool,
    half_cycle: u32,
    walking: bool,
    now: u64,
    k: int,
)
    requires
        bank_of(config.player.footsteps@, block, k),
        config.player.footsteps@[k].clips@.len() > 0,
    ensures
        ({
            let bank = config.player.footsteps@[k];
            let (after, plan) = walk(config, s, pos, Some(block), fast, half_cycle, walking, now);
            &&& plan.play is Some <==> walking && fast && now >= s.next_at && (s.active matches Some(
                id,
            ) && id != bank.id@ || (s.cadence.last_half_cycle matches Some(last) ==> half_cycle
                > last))
            &&& plan.play matches Some((i, _)) ==> 0 <= i < bank.clips@.len() && (after.next_at
                == now + bank.cooldown_ms * 1_000_000 || after.next_at == u64::MAX && now
                + bank.cooldown_ms * 1_000_000 > u64::MAX)
            &&& walking && fast ==> after.cadence.last_half_cycle == Some(half_cycle)
            &&& !(walking && fast) ==> after.cadence.last_half_cycle is None && after.active is None
        }),
{
    lemma_bank_of(config.player.footsteps@, block, k, 0);
    let bank = config.player.footsteps@[k];
    let hash = hash_of(pos.0, pos.1, pos.2, block, le_bytes(half_cycle));
    lemma_step_clip_range(bank, s.turns, hash);
    let (after, plan) = walk(config, s, pos, Some(block), fast, half_cycle, walking, now);
    let changed = s.active is Some && s.active != Some(bank.id@);
    if walking && fast && now >= s.next_at && (changed || step_falls(
        s.cadence,
        true,
        half_cycle,
    )) {
        assert(plan.play == Some((step_clip(bank, s.turns, hash), hash)));
        assert(after.next_at == later(now, bank.cooldown_ms));
    } else {
        assert(plan.play is None);
    }
}

/// Ground that no bank lists is walked on in silence, and so is no ground at all.
pub proof fn law_unlisted_ground_is_silent(
    config: AudioConfig,
    s: FootstepsView,
    pos: (i32, i32, i32),
    block: Option<Block>,
    fast: bool,
    half_cycle: u32,
    walking: bool,
    now: u64,
)
    requires
        block matches Some(b) ==> forall|j: int, i: int|
            0 <= j < config.player.footsteps@.len() && 0 <= i
                < config.player.footsteps@[j].blocks@.len()
                ==> #[trigger] config.player.footsteps@[j].blocks@[i] != b,
    ensures
        walk(config, s, pos, block, fast, half_cycle, walking, now).1.play is None,
        walk(config, s, pos, block, fast, half_cycle, walking, now).0.active is None,
{
    if let Some(b) = block {
        let banks = config.player.footsteps@;
        lemma_bank_of(banks, b, 0, 0);
        if let Some(j) = bank_for(banks, b, 0) {
            let i = choose|i: int|
                0 <= i < banks[j].blocks@.len() && #[trigger] banks[j].blocks@[i] == b;
            assert(banks[j].blocks@[i] != b);
        }
    }
}

/// A landing sounds like the ground: like the first step of the bank for the block
/// landed on, and like the landing clip where there is no such step.
pub proof fn law_landing_sounds_like_the_ground(config: AudioConfig, block: Block, k: int)
    ensures
        bank_of(config.player.footsteps@, block, k) ==> landing_clip(config, Some(block)) == if (
        config.player.footsteps@[k].clips@.len() > 0) {
            Some(config.player.footsteps@[k].clips@[0])
        } else {
            config.player.land
        },
        (forall|j: int, i: int|
            0 <= j < config.player.footsteps@.len() && 0 <= i
                < config.player.footsteps@[j].blocks@.len()
                ==> #[trigger] config.player.footsteps@[j].blocks@[i] != block) ==> landing_clip(
            config,
            Some(block),
        ) == config.player.land,
        landing_clip(config, None) == config.player.land,
{
    let banks = config.player.footsteps@;
    lemma_bank_of(banks, block, k, 0);
    if let Some(j) = bank_for(banks, block, 0) {
        let i = choose|i: int|
            0 <= i < banks[j].blocks@.len() && #[trigger] banks[j].blocks@[i] == block;
        assert(banks[j].blocks@[i] == block);
    }
}

/// A voice comes from the creature's own clips for the occasion, and is heard
/// whenever there are any.
pub proof fn law_voices_are_the_creatures_own(
    config: AudioConfig,
    mob: Seq<char>,
    x: i32,
    y: i32,
    z: i32,
    kind: Seq<char>,
    m: int,
    g: int,
)
    requires
        0 <= m < config.mobs@.len(),
        config.mobs@[m].mob_id@ == mob,
        forall|j: int| 0 <= j < m ==> (#[trigger] config.mobs@[j]).mob_id@ != mob,
        0 <= g < config.mobs@[m].vocalizations@.len(),
        config.mobs@[m].vocalizations@[g].kind@ == kind,
        forall|j: int|
            0 <= j < g ==> (#[trigger] config.mobs@[m].vocalizations@[j]).kind@ != kind,
    ensures
        match voice_clip(config, mob, x, y, z, kind) {
            Some(clip) => exists|i: int|
                0 <= i < config.mobs@[m].vocalizations@[g].clips@.len()
                    && #[trigger] config.mobs@[m].vocalizations@[g].clips@[i] == clip,
            None => config.mobs@[m].vocalizations@[g].clips@.len() == 0,
        },
{
    lemma_mob_found(config.mobs@, mob, m, 0);
    lemma_kind_found(config.mobs@[m].vocalizations@, kind, g, 0);
    let clips = config.mobs@[m].vocalizations@[g].clips@;
    if clips.len() > 0 {
        let salt = encode_utf8(mob + ":"@ + kind);
        let i = hash_of(x, y, z, Block::Air, salt) as int % clips.len() as int;
        assert(0 <= i < clips.len());
        assert(voice_clip(config, mob, x, y, z, kind) == Some(clips[i]));
    }
}

proof fn lemma_mob_found(mobs: Seq<MobSoundBankConfig>, id: Seq<char>, m: int, i: int)
    requires
        0 <= i <= m < mobs.len(),
        mobs[m].mob_id@ == id,
        forall|j: int| 0 <= j < m ==> (#[trigger] mobs[j]).mob_id@ != id,
    ensures
        mob_named(mobs, id, i) == Some(m),
    decreases m - i,
{
    if i < m {
        lemma_mob_found(mobs, id, m, i + 1);
    }
}

proof fn lemma_kind_found(groups: Seq<MobVocalizationConfig>, kind: Seq<char>, g: int, i: int)
    requires
        0 <= i <= g < groups.len(),
        groups[g].kind@ == kind,
        forall|j: int| 0 <= j < g ==> (#[trigger] groups[j]).kind@ != kind,
    ensures
        vocal_kind(groups, kind, i) == Some(g),
    decreases g - i,
{
    if i < g {
        lemma_kind_found(groups, kind, g, i + 1);
    }
}

/// Music goes on: a piece that plays keeps playing until it ends. Then follow at
/// least 150 and less than 390 seconds of silence, and the next piece starts in the
/// first frame after them in which the game is not paused.
pub proof fn law_music_comes_back(m: Music, ended: bool, paused: bool, now: u64, then: u64)
    requires
        now + 390_000_000_000 <= u64::MAX,
    ensures
        ({
            let after = after_ending(m, ended, now);
            &&& m.playing && !ended ==> after == m && music_action(after, paused, now)
                == MusicAction::SetVolume
            &&& m.playing && ended ==> !after.playing && now + 150_000_000_000 <= after.next_at
                < now + 390_000_000_000
            &&& !m.playing ==> after == m
            &&& !after.playing && !paused && then >= after.next_at ==> music_action(
                after,
                paused,
                then,
            ) == MusicAction::Start
        }),
{
    let g = m.generation.wrapping_mul(97) as int;
    lemma_mod_bound(g, MUSIC_SILENCE_RANGE as int);
}

} // verus!
