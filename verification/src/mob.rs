//! The creatures of the dungeon: the species as they are authored, and the
//! individuals that are rolled from them.

use vstd::prelude::*;
use vstd::std_specs::hash::DefaultHasherAdditionalSpecFns;
use rand::rngs::StdRng;
use std::collections::hash_map::DefaultHasher;
use std::hash::Hasher;
use crate::colors::Color;
use crate::random::{choose_weighted, lemma_total_weight_bound, lemma_total_weight_positive};
use crate::value::Value;

verus! {

#[derive(Copy, Clone, Debug, PartialEq, Eq, Structural)]
pub enum MobBody {
    Eye,
    Ear,
    Head,
    Hand,
    Claw,
    Foot,
    Tail,
}

#[derive(Copy, Clone, Debug, PartialEq, Eq, Structural)]
pub enum MobGender {
    Male,
    NonBinary,
    Female,
}

/// The part of the dungeon that a species lives in.
#[derive(Copy, Clone, Debug, PartialEq, Eq, Structural)]
pub enum MobClass {
    ThrallMob,
    UpperMob,
    MiddleMob,
    SauronsDenMob,
    LowerMob,
    MorgothsLairMob,
    LowestMob,
}

#[derive(Copy, Clone, Debug, PartialEq, Eq, Structural)]
pub enum MobMovement {
    Immobile,
    Sedentary,
    LightlyActive,
    Active,
    VeryActive,
}

impl MobMovement {
    /// The chance in a hundred that a mob moves in a turn.
    pub open spec fn spec_chance_of_movement(&self) -> int {
        match *self {
            MobMovement::Immobile => 0,
            MobMovement::Sedentary => 10,
            MobMovement::LightlyActive => 30,
            MobMovement::Active => 80,
            MobMovement::VeryActive => 100,
        }
    }

    /// The chance in a hundred that a mob moves in a turn.
    pub fn chance_of_movement(&self) -> (chance: usize)
        ensures
            chance == self.spec_chance_of_movement(),
    {
        match self {
            MobMovement::Immobile => 0,
            MobMovement::Sedentary => 10,
            MobMovement::LightlyActive => 30,
            MobMovement::Active => 80,
            MobMovement::VeryActive => 100,
        }
    }
}

#[derive(Copy, Clone, Debug, PartialEq, Eq, Structural)]
pub enum MobAlignment {
    /// Attacks whether attacked or not.
    Hostile,
    /// Attacks if attacked.
    Neutral,
    /// Flees if attacked, and fights the hostile.
    Friendly,
}

/// What a mob is about.
#[derive(Copy, Clone, Debug, PartialEq, Eq, Structural)]
pub enum MobMode {
    AttackMob,
    Eat,
    Drink,
    Sleep,
    CompleteJob,
    FindJob,
    Wander,
}

/// A species as it is authored.
#[derive(Clone, Debug)]
pub struct MobTemplate {
    /// What the species is known by; no two share one.
    pub id: String,
    pub class: MobClass,
    pub short_name: String,
    pub long_name: String,
    pub tagline: String,
    pub description: String,
    /// The genders with their relative likelihood.
    pub allowed_genders: Vec<(MobGender, u8)>,
    pub body: Vec<MobBody>,
    pub ascii_glyph: char,
    pub unicode_glyph: char,
    pub glyph_fg: Option<Color>,
    pub alignment: MobAlignment,
    /// In centimetres.
    pub height: Value<u16>,
    /// In centimetres.
    pub width: Value<u16>,
    /// In kilograms.
    pub weight: Value<u16>,
    /// The name of the material that the body is made of.
    pub composition: String,
    pub normal_body_temperature: Value<usize>,
    pub min_body_temperature: Value<usize>,
    pub max_body_temperature: Value<usize>,
    pub needs_food: bool,
    pub needs_drink: bool,
    pub needs_sleep: bool,
    pub greetings: Vec<String>,
    pub misc_lines: Vec<String>,
    pub farewells: Vec<String>,
    pub strength: Value<u8>,
    pub agility: Value<u8>,
    pub endurance: Value<u8>,
    pub metabolism: Value<u8>,
    pub willpower: Value<u8>,
    pub focus: Value<u8>,
    pub bravery: Value<u8>,
    pub intelligence: Value<u8>,
    pub aggressive: Value<u8>,
    pub movement: MobMovement,
    /// In years.
    pub age: Value<u64>,
    pub max_age: Option<Value<u64>>,
    pub summoner: bool,
    pub summonable: bool,
    pub undead: bool,
    pub opposed_to_life: bool,
    pub necromancer: Value<u8>,
    pub vampire: bool,
    pub is_unique: bool,
    /// No more than this many individuals live on one map.
    pub max_in_map: usize,
}

/// An individual.
#[derive(Clone, Debug)]
pub struct Mob {
    /// The `id` of the species.
    pub from_mob_template: String,
    pub body: Vec<MobBody>,
    pub ascii_glyph: char,
    pub unicode_glyph: char,
    pub glyph_fg: Option<Color>,
    pub alignment: MobAlignment,
    pub height: u16,
    pub width: u16,
    pub weight: u16,
    pub normal_body_temperature: usize,
    pub min_body_temperature: usize,
    pub max_body_temperature: usize,
    pub gender: MobGender,
    pub max_strength: u8,
    pub max_agility: u8,
    pub max_endurance: u8,
    pub max_metabolism: u8,
    pub max_willpower: u8,
    pub max_focus: u8,
    pub max_intelligence: u8,
    /// What is left of `max_strength`, in hundredths; likewise below.
    pub strength: u8,
    pub agility: u8,
    pub endurance: u8,
    pub metabolism: u8,
    pub willpower: u8,
    pub focus: u8,
    pub intelligence: u8,
    pub bravery: u8,
    pub aggressive: u8,
    pub age: u64,
    pub max_age: Option<u64>,
    pub undead: bool,
    pub opposed_to_life: bool,
    pub current_mode: MobMode,
}

/// The eight bytes of a number, the lowest first.
pub open spec fn le_bytes(v: u64) -> Seq<u8> {
    seq![
        (v % 256) as u8,
        ((v / 0x100) % 256) as u8,
        ((v / 0x1_0000) % 256) as u8,
        ((v / 0x100_0000) % 256) as u8,
        ((v / 0x1_0000_0000) % 256) as u8,
        ((v / 0x100_0000_0000) % 256) as u8,
        ((v / 0x1_0000_0000_0000) % 256) as u8,
        ((v / 0x100_0000_0000_0000) % 256) as u8,
    ]
}

/// The number that stands for an alignment in the identity of a mob.
pub open spec fn spec_alignment_code(a: MobAlignment) -> u64 {
    match a {
        MobAlignment::Hostile => 0,
        MobAlignment::Neutral => 1,
        MobAlignment::Friendly => 2,
    }
}

/// The number that stands for a gender in the identity of a mob.
pub open spec fn spec_gender_code(g: MobGender) -> u64 {
    match g {
        MobGender::Male => 0,
        MobGender::NonBinary => 1,
        MobGender::Female => 2,
    }
}

/// The numbers that stand for a colour, or for none, in the identity of a
/// mob.
pub open spec fn spec_color_words(c: Option<Color>) -> Seq<u64> {
    match c {
        Some(c) => seq![1u64, c.red as u64, c.green as u64, c.blue as u64, c.alpha as u64],
        None => seq![0u64, 0u64, 0u64, 0u64, 0u64],
    }
}

/// The numbers that make up the identity of a mob, beside the name of its
/// species: what it is born with and never changes.
pub open spec fn spec_identity_words(mob: Mob) -> Seq<u64> {
    seq![mob.ascii_glyph as u64] + spec_color_words(mob.glyph_fg) + seq![
        spec_alignment_code(mob.alignment),
        mob.height as u64,
        mob.width as u64,
        mob.weight as u64,
        mob.normal_body_temperature as u64,
        mob.min_body_temperature as u64,
        mob.max_body_temperature as u64,
        spec_gender_code(mob.gender),
        mob.max_strength as u64,
        mob.max_agility as u64,
        mob.max_endurance as u64,
        mob.max_metabolism as u64,
        mob.max_focus as u64,
        mob.max_intelligence as u64,
    ]
}

/// The bytes of the first `upto` of the numbers, one number after the other.
pub open spec fn words_to_bytes(words: Seq<u64>, upto: int) -> Seq<u8>
    decreases upto,
{
    if upto <= 0 {
        Seq::empty()
    } else {
        words_to_bytes(words, upto - 1) + le_bytes(words[upto - 1])
    }
}

/// The key of a mob in the table of mobs: the hash of the name of its
/// species and of the numbers of its identity. Two mobs with the same
/// identity have the same key.
pub open spec fn spec_identity_hash(mob: Mob) -> u64 {
    DefaultHasher::spec_finish(
        seq![
            vstd::utf8::encode_utf8(mob.from_mob_template@),
            words_to_bytes(spec_identity_words(mob), spec_identity_words(mob).len() as int),
        ],
    )
}

/// Appends the eight bytes of a number.
fn push_le_bytes(buf: &mut Vec<u8>, v: u64)
    ensures
        final(buf)@ == old(buf)@ + le_bytes(v),
{
    buf.push((v % 256) as u8);
    buf.push(((v / 0x100) % 256) as u8);
    buf.push(((v / 0x1_0000) % 256) as u8);
    buf.push(((v / 0x100_0000) % 256) as u8);
    buf.push(((v / 0x1_0000_0000) % 256) as u8);
    buf.push(((v / 0x100_0000_0000) % 256) as u8);
    buf.push(((v / 0x1_0000_0000_0000) % 256) as u8);
    buf.push(((v / 0x100_0000_0000_0000) % 256) as u8);
    assert(buf@ =~= old(buf)@ + le_bytes(v));
}

/// The number that stands for an alignment.
fn alignment_code(a: MobAlignment) -> (code: u64)
    ensures
        code == spec_alignment_code(a),
{
    match a {
        MobAlignment::Hostile => 0,
        MobAlignment::Neutral => 1,
        MobAlignment::Friendly => 2,
    }
}

/// The number that stands for a gender.
fn gender_code(g: MobGender) -> (code: u64)
    ensures
        code == spec_gender_code(g),
{
    match g {
        MobGender::Male => 0,
        MobGender::NonBinary => 1,
        MobGender::Female => 2,
    }
}

/// The numbers that make up the identity of a mob.
fn identity_words(mob: &Mob) -> (words: Vec<u64>)
    ensures
        words@ == spec_identity_words(*mob),
{
    let mut words: Vec<u64> = Vec::new();
    words.push(mob.ascii_glyph as u64);
    match mob.glyph_fg {
        Some(c) => {
            words.push(1);
            words.push(c.red as u64);
            words.push(c.green as u64);
            words.push(c.blue as u64);
            words.push(c.alpha as u64);
        },
        None => {
            words.push(0);
            words.push(0);
            words.push(0);
            words.push(0);
            words.push(0);
        },
    }
    words.push(alignment_code(mob.alignment));
    words.push(mob.height as u64);
    words.push(mob.width as u64);
    words.push(mob.weight as u64);
    words.push(mob.normal_body_temperature as u64);
    words.push(mob.min_body_temperature as u64);
    words.push(mob.max_body_temperature as u64);
    words.push(gender_code(mob.gender));
    words.push(mob.max_strength as u64);
    words.push(mob.max_agility as u64);
    words.push(mob.max_endurance as u64);
    words.push(mob.max_metabolism as u64);
    words.push(mob.max_focus as u64);
    words.push(mob.max_intelligence as u64);
    assert(words@ =~= spec_identity_words(*mob));
    words
}

/// A copy of a list of body parts.
fn clone_body(body: &Vec<MobBody>) -> (copy: Vec<MobBody>)
    ensures
        copy@ == body@,
{
    let mut copy: Vec<MobBody> = Vec::new();
    let mut i: usize = 0;
    while i < body.len()
        invariant
            i <= body.len(),
            copy@ == body@.take(i as int),
        decreases body.len() - i,
    {
        copy.push(body[i]);
        assert(body@.take(i as int + 1) =~= body@.take(i as int).push(body@[i as int]));
        i = i + 1;
    }
    assert(body@.take(body@.len() as int) =~= body@);
    copy
}

impl Mob {
    /// The key of the mob in the table of mobs.
    pub fn identity_hash(&self) -> (key: u64)
        ensures
            key == spec_identity_hash(*self),
    {
        let words: Vec<u64> = identity_words(self);
        let mut bytes: Vec<u8> = Vec::new();
        let mut i: usize = 0;
        while i < words.len()
            invariant
                i <= words.len(),
                bytes@ == words_to_bytes(words@, i as int),
            decreases words.len() - i,
        {
            push_le_bytes(&mut bytes, words[i]);
            i = i + 1;
        }
        let mut state = DefaultHasher::new();
        state.write(self.from_mob_template.as_str().as_bytes());
        state.write(bytes.as_slice());
        proof {
            assert(state@ =~= seq![
                vstd::utf8::encode_utf8(self.from_mob_template@),
                words_to_bytes(spec_identity_words(*self), spec_identity_words(*self).len() as int),
            ]);
        }
        state.finish()
    }

    /// A copy of the mob.
    pub fn duplicate(&self) -> (copy: Mob)
        ensures
            copy.from_mob_template@ == self.from_mob_template@,
            copy.body@ == self.body@,
            copy == (Mob { from_mob_template: copy.from_mob_template, body: copy.body, ..*self }),
    {
        Mob {
            from_mob_template: self.from_mob_template.clone(),
            body: clone_body(&self.body),
            ascii_glyph: self.ascii_glyph,
            unicode_glyph: self.unicode_glyph,
            glyph_fg: self.glyph_fg,
            alignment: self.alignment,
            height: self.height,
            width: self.width,
            weight: self.weight,
            normal_body_temperature: self.normal_body_temperature,
            min_body_temperature: self.min_body_temperature,
            max_body_temperature: self.max_body_temperature,
            gender: self.gender,
            max_strength: self.max_strength,
            max_agility: self.max_agility,
            max_endurance: self.max_endurance,
            max_metabolism: self.max_metabolism,
            max_willpower: self.max_willpower,
            max_focus: self.max_focus,
            max_intelligence: self.max_intelligence,
            strength: self.strength,
            agility: self.agility,
            endurance: self.endurance,
            metabolism: self.metabolism,
            willpower: self.willpower,
            focus: self.focus,
            intelligence: self.intelligence,
            bravery: self.bravery,
            aggressive: self.aggressive,
            age: self.age,
            max_age: self.max_age,
            undead: self.undead,
            opposed_to_life: self.opposed_to_life,
            current_mode: self.current_mode,
        }
    }
}

impl MobTemplate {
    /// Whether an individual can be rolled: some gender has a likelihood,
    /// and every range to draw from holds a number.
    pub open spec fn rollable(&self) -> bool {
        &&& exists|k: int|
            0 <= k < self.allowed_genders@.len() && (#[trigger] self.allowed_genders@[k]).1 > 0
        &&& self.height.valid() && self.width.valid() && self.weight.valid()
        &&& self.normal_body_temperature.valid() && self.min_body_temperature.valid()
            && self.max_body_temperature.valid()
        &&& self.strength.valid() && self.agility.valid() && self.endurance.valid()
            && self.metabolism.valid() && self.willpower.valid() && self.focus.valid()
            && self.intelligence.valid()
        &&& self.bravery.valid() && self.aggressive.valid() && self.age.valid()
        &&& match self.max_age {
            Some(v) => v.valid(),
            None => true,
        }
    }

    /// Whether the gender is one that the species has, with a likelihood
    /// that is not nought.
    pub open spec fn has_gender(&self, g: MobGender) -> bool {
        exists|k: int|
            0 <= k < self.allowed_genders@.len() && (#[trigger] self.allowed_genders@[k]).0 == g
                && self.allowed_genders@[k].1 > 0
    }

    /// Whether `mob` is an individual that can be rolled from the species:
    /// what is fixed for the species is taken over, every rolled quantity
    /// lies in its range, and every faculty stands at a hundred hundredths
    /// of its maximum.
    pub open spec fn is_instance(&self, mob: Mob) -> bool {
        &&& mob.from_mob_template@ == self.id@
        &&& mob.body@ == self.body@
        &&& mob.ascii_glyph == self.ascii_glyph
        &&& mob.unicode_glyph == self.unicode_glyph
        &&& mob.glyph_fg == self.glyph_fg
        &&& mob.alignment == self.alignment
        &&& self.has_gender(mob.gender)
        &&& self.height.admits(mob.height)
        &&& self.width.admits(mob.width)
        &&& self.weight.admits(mob.weight)
        &&& self.normal_body_temperature.admits(mob.normal_body_temperature)
        &&& self.min_body_temperature.admits(mob.min_body_temperature)
        &&& self.max_body_temperature.admits(mob.max_body_temperature)
        &&& self.strength.admits(mob.max_strength)
        &&& self.agility.admits(mob.max_agility)
        &&& self.endurance.admits(mob.max_endurance)
        &&& self.metabolism.admits(mob.max_metabolism)
        &&& self.willpower.admits(mob.max_willpower)
        &&& self.focus.admits(mob.max_focus)
        &&& self.intelligence.admits(mob.max_intelligence)
        &&& mob.strength == 100 && mob.agility == 100 && mob.endurance == 100 && mob.metabolism
            == 100 && mob.willpower == 100 && mob.focus == 100 && mob.intelligence == 100
        &&& self.bravery.admits(mob.bravery)
        &&& self.aggressive.admits(mob.aggressive)
        &&& self.age.admits(mob.age)
        &&& match self.max_age {
            Some(v) => mob.max_age matches Some(a) && v.admits(a),
            None => mob.max_age is None,
        }
        &&& mob.undead == self.undead
        &&& mob.opposed_to_life == self.opposed_to_life
        &&& mob.current_mode == MobMode::Wander
    }

    /// Tests whether an individual can be rolled.
    pub fn is_rollable(&self) -> (b: bool)
        ensures
            b == self.rollable(),
    {
        let mut likely: bool = false;
        let mut i: usize = 0;
        while i < self.allowed_genders.len()
            invariant
                i <= self.allowed_genders.len(),
                likely <==> exists|k: int|
                    0 <= k < i && (#[trigger] self.allowed_genders@[k]).1 > 0,
            decreases self.allowed_genders.len() - i,
        {
            if self.allowed_genders[i].1 > 0 {
                likely = true;
            }
            i = i + 1;
        }
        let limit: bool = match &self.max_age {
            Some(v) => v.is_valid(),
            None => true,
        };
        likely && limit && self.height.is_valid() && self.width.is_valid()
            && self.weight.is_valid() && self.normal_body_temperature.is_valid()
            && self.min_body_temperature.is_valid() && self.max_body_temperature.is_valid()
            && self.strength.is_valid() && self.agility.is_valid() && self.endurance.is_valid()
            && self.metabolism.is_valid() && self.willpower.is_valid() && self.focus.is_valid()
            && self.intelligence.is_valid() && self.bravery.is_valid()
            && self.aggressive.is_valid() && self.age.is_valid()
    }

    /// What the species is known by.
    pub fn id(&self) -> (id: String)
        ensures
            id@ == self.id@,
    {
        self.id.clone()
    }

    /// Draws a gender by the likelihoods of the species.
    pub fn roll_gender(&self, rng: &mut StdRng) -> (gender: Option<MobGender>)
        ensures
            gender matches Some(g) ==> self.has_gender(g),
            (exists|k: int|
                0 <= k < self.allowed_genders@.len() && (#[trigger] self.allowed_genders@[k]).1 > 0)
                ==> gender is Some,
    {
        let mut choices: Vec<(usize, u128)> = Vec::new();
        let mut i: usize = 0;
        while i < self.allowed_genders.len()
            invariant
                i <= self.allowed_genders.len(),
                choices@.len() == i,
                forall|k: int|
                    0 <= k < i ==> (#[trigger] choices@[k]).0 == k && choices@[k].1
                        == self.allowed_genders@[k].1,
            decreases self.allowed_genders.len() - i,
        {
            choices.push((i, self.allowed_genders[i].1 as u128));
            i = i + 1;
        }
        proof {
            lemma_total_weight_bound(choices@, 255);
            assert(choices@.len() * 255 <= u128::MAX) by (nonlinear_arith)
                requires
                    choices@.len() <= 0xffff_ffff_ffff_ffff,
            ;
            if exists|k: int|
                0 <= k < self.allowed_genders@.len() && (#[trigger] self.allowed_genders@[k]).1
                    > 0 {
                let k = choose|k: int|
                    0 <= k < self.allowed_genders@.len() && (#[trigger] self.allowed_genders@[k]).1
                        > 0;
                assert(choices@[k].1 > 0);
                lemma_total_weight_positive(choices@, k);
            }
        }
        match choose_weighted(rng, &choices) {
            Some(tag) => {
                proof {
                    let t = choose|t: int|
                        0 <= t < choices@.len() && (#[trigger] choices@[t]).0 == tag
                            && choices@[t].1 > 0;
                    assert(self.allowed_genders@[t].1 > 0);
                }
                Some(self.allowed_genders[tag].0)
            },
            None => None,
        }
    }

    /// Rolls an individual of the species. Every quantity is resolved once.
    pub fn generate_mob(&self, rng: &mut StdRng) -> (mob: Mob)
        requires
            self.rollable(),
        ensures
            self.is_instance(mob),
    {
        let max_age: Option<u64> = match &self.max_age {
            Some(v) => Some(v.get(rng)),
            None => None,
        };
        let gender: MobGender = match self.roll_gender(rng) {
            Some(g) => g,
            None => MobGender::Male,
        };
        let height: u16 = self.height.get(rng);
        let width: u16 = self.width.get(rng);
        let weight: u16 = self.weight.get(rng);
        let normal_body_temperature: usize = self.normal_body_temperature.get(rng);
        let min_body_temperature: usize = self.min_body_temperature.get(rng);
        let max_body_temperature: usize = self.max_body_temperature.get(rng);
        let max_strength: u8 = self.strength.get(rng);
        let max_agility: u8 = self.agility.get(rng);
        let max_endurance: u8 = self.endurance.get(rng);
        let max_metabolism: u8 = self.metabolism.get(rng);
        let max_willpower: u8 = self.willpower.get(rng);
        let max_focus: u8 = self.focus.get(rng);
        let max_intelligence: u8 = self.intelligence.get(rng);
        let bravery: u8 = self.bravery.get(rng);
        let aggressive: u8 = self.aggressive.get(rng);
        let age: u64 = self.age.get(rng);
        Mob {
            from_mob_template: self.id.clone(),
            gender,
            body: clone_body(&self.body),
            ascii_glyph: self.ascii_glyph,
            unicode_glyph: self.unicode_glyph,
            glyph_fg: self.glyph_fg,
            alignment: self.alignment,
            height,
            width,
            weight,
            normal_body_temperature,
            min_body_temperature,
            max_body_temperature,
            max_strength,
            max_agility,
            max_endurance,
            max_metabolism,
            max_willpower,
            max_focus,
            max_intelligence,
            strength: 100,
            agility: 100,
            endurance: 100,
            metabolism: 100,
            willpower: 100,
            focus: 100,
            intelligence: 100,
            bravery,
            aggressive,
            age,
            max_age,
            undead: self.undead,
            opposed_to_life: self.opposed_to_life,
            current_mode: MobMode::Wander,
        }
    }
}

} // verus!
