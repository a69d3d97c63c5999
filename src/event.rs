//! Event records and their decoders: the event type at the head of a body
//! selects a fixed-arity mapping from decoded cells to named fields.
use vstd::prelude::*;

use crate::cell::{
    LogCell, LogError, Value, cell_at, cells_view, is_cell_literal, lemma_cells_view,
    lemma_list_of_literals, list_at, cell_lit, list_lit, list_literal, truthy, value_of,
};
use crate::text::{CharClass, char_at, chars_of, lemma_span, scan, span, string_of};

verus! {

/// An emote: four comma-delimited fields and free text to the end of the line.
#[derive(Debug, PartialEq)]
pub struct LogEmote {
    pub sourceGUID: String,
    pub sourcename: String,
    pub sourceflags: String,
    pub sourceraidflags: String,
    pub text: String,
}

/// A successful spell cast: the fields that every spell event shares.
#[derive(Debug, PartialEq)]
pub struct LogSpellCastSuccess {
    pub sourceGUID: LogCell,
    pub sourceName: LogCell,
    pub sourceFlags: LogCell,
    pub sourceRaidFlags: LogCell,
    pub destGUID: LogCell,
    pub destName: LogCell,
    pub destFlags: LogCell,
    pub destRaidFlags: LogCell,
    pub spellId: LogCell,
    pub spellName: LogCell,
    pub spellSchool: LogCell,
    pub unitGUID: LogCell,
    pub ownerGUID: LogCell,
    pub currHp: LogCell,
    pub maxHp: LogCell,
    pub attackPower: LogCell,
    pub spellPower: LogCell,
    pub armor: LogCell,
    pub totalDamageAbsorbs: LogCell,
    pub resourceType: LogCell,
    pub currResource: LogCell,
    pub maxResource: LogCell,
    pub resourceCost: LogCell,
    pub y: LogCell,
    pub x: LogCell,
    pub mapId: LogCell,
    pub facing: LogCell,
    pub ilvl: LogCell,
}

/// Spell damage: the shared fields, the damage done, and four flags.
#[derive(Debug, PartialEq)]
pub struct LogSpellDamage {
    pub sourceGUID: LogCell,
    pub sourceName: LogCell,
    pub sourceFlags: LogCell,
    pub sourceRaidFlags: LogCell,
    pub destGUID: LogCell,
    pub destName: LogCell,
    pub destFlags: LogCell,
    pub destRaidFlags: LogCell,
    pub spellId: LogCell,
    pub spellName: LogCell,
    pub spellSchool: LogCell,
    pub unitGUID: LogCell,
    pub ownerGUID: LogCell,
    pub currHp: LogCell,
    pub maxHp: LogCell,
    pub attackPower: LogCell,
    pub spellPower: LogCell,
    pub armor: LogCell,
    pub totalDamageAbsorbs: LogCell,
    pub resourceType: LogCell,
    pub currResource: LogCell,
    pub maxResource: LogCell,
    pub resourceCost: LogCell,
    pub y: LogCell,
    pub x: LogCell,
    pub mapId: LogCell,
    pub facing: LogCell,
    pub ilvl: LogCell,
    pub amount: LogCell,
    pub overkill: LogCell,
    pub school: LogCell,
    pub resisted: LogCell,
    pub blocked: LogCell,
    pub absorbed: LogCell,
    pub critical: bool,
    pub glancing: bool,
    pub crushing: bool,
    pub isOffHand: bool,
}

/// A spell heal: the shared fields, the healing done, and whether it was critical.
#[derive(Debug, PartialEq)]
pub struct LogSpellHeal {
    pub sourceGUID: LogCell,
    pub sourceName: LogCell,
    pub sourceFlags: LogCell,
    pub sourceRaidFlags: LogCell,
    pub destGUID: LogCell,
    pub destName: LogCell,
    pub destFlags: LogCell,
    pub destRaidFlags: LogCell,
    pub spellId: LogCell,
    pub spellName: LogCell,
    pub spellSchool: LogCell,
    pub unitGUID: LogCell,
    pub ownerGUID: LogCell,
    pub currHp: LogCell,
    pub maxHp: LogCell,
    pub attackPower: LogCell,
    pub spellPower: LogCell,
    pub armor: LogCell,
    pub totalDamageAbsorbs: LogCell,
    pub resourceType: LogCell,
    pub currResource: LogCell,
    pub maxResource: LogCell,
    pub resourceCost: LogCell,
    pub y: LogCell,
    pub x: LogCell,
    pub mapId: LogCell,
    pub facing: LogCell,
    pub ilvl: LogCell,
    pub amount: LogCell,
    pub overhealing: LogCell,
    pub absorbed: LogCell,
    pub critical: bool,
}

/// A decoded event body.
#[derive(Debug, PartialEq)]
pub enum LogRow {
    Emote(LogEmote),
    SpellCastSuccess(LogSpellCastSuccess),
    SpellDamage(LogSpellDamage),
    SpellHeal(LogSpellHeal),
    /// An event type that has no record here; not an error.
    NotSupported,
}

pub open spec fn emote_tag() -> Seq<char> {
    "EMOTE"@
}

pub open spec fn cast_tag() -> Seq<char> {
    "SPELL_CAST_SUCCESS"@
}

pub open spec fn damage_tag() -> Seq<char> {
    "SPELL_DAMAGE"@
}

pub open spec fn heal_tag() -> Seq<char> {
    "SPELL_HEAL"@
}

/// The cell fields of a record, in the order in which the line holds them.
pub open spec fn cast_fields(r: LogSpellCastSuccess) -> Seq<Value> {
    seq![
        r.sourceGUID@,
        r.sourceName@,
        r.sourceFlags@,
        r.sourceRaidFlags@,
        r.destGUID@,
        r.destName@,
        r.destFlags@,
        r.destRaidFlags@,
        r.spellId@,
        r.spellName@,
        r.spellSchool@,
        r.unitGUID@,
        r.ownerGUID@,
        r.currHp@,
        r.maxHp@,
        r.attackPower@,
        r.spellPower@,
        r.armor@,
        r.totalDamageAbsorbs@,
        r.resourceType@,
        r.currResource@,
        r.maxResource@,
        r.resourceCost@,
        r.y@,
        r.x@,
        r.mapId@,
        r.facing@,
        r.ilvl@,
    ]
}

/// The cell fields of a record, in the order in which the line holds them.
pub open spec fn damage_fields(r: LogSpellDamage) -> Seq<Value> {
    seq![
        r.sourceGUID@,
        r.sourceName@,
        r.sourceFlags@,
        r.sourceRaidFlags@,
        r.destGUID@,
        r.destName@,
        r.destFlags@,
        r.destRaidFlags@,
        r.spellId@,
        r.spellName@,
        r.spellSchool@,
        r.unitGUID@,
        r.ownerGUID@,
        r.currHp@,
        r.maxHp@,
        r.attackPower@,
        r.spellPower@,
        r.armor@,
        r.totalDamageAbsorbs@,
        r.resourceType@,
        r.currResource@,
        r.maxResource@,
        r.resourceCost@,
        r.y@,
        r.x@,
        r.mapId@,
        r.facing@,
        r.ilvl@,
        r.amount@,
        r.overkill@,
        r.school@,
        r.resisted@,
        r.blocked@,
        r.absorbed@,
    ]
}

/// The cell fields of a record, in the order in which the line holds them.
pub open spec fn heal_fields(r: LogSpellHeal) -> Seq<Value> {
    seq![
        r.sourceGUID@,
        r.sourceName@,
        r.sourceFlags@,
        r.sourceRaidFlags@,
        r.destGUID@,
        r.destName@,
        r.destFlags@,
        r.destRaidFlags@,
        r.spellId@,
        r.spellName@,
        r.spellSchool@,
        r.unitGUID@,
        r.ownerGUID@,
        r.currHp@,
        r.maxHp@,
        r.attackPower@,
        r.spellPower@,
        r.armor@,
        r.totalDamageAbsorbs@,
        r.resourceType@,
        r.currResource@,
        r.maxResource@,
        r.resourceCost@,
        r.y@,
        r.x@,
        r.mapId@,
        r.facing@,
        r.ilvl@,
        r.amount@,
        r.overhealing@,
        r.absorbed@,
    ]
}

/// Whether `s` starts with `tag` and a comma.
pub open spec fn has_tag(s: Seq<char>, tag: Seq<char>) -> bool {
    tag.len() < s.len() && s.take(tag.len() as int) == tag && s[tag.len() as int] == ','
}

/// The cells of an event body that starts with `tag`: a comma-separated
/// list of one or more cells after the tag and its comma, with the number of
/// characters that tag and list take.
pub open spec fn event_cells(s: Seq<char>, tag: Seq<char>) -> Option<(Seq<Value>, int)> {
    if has_tag(s, tag) && cell_lit(s.skip(tag.len() as int + 1)) is Some {
        let l = list_lit(s.skip(tag.len() as int + 1));
        Some((l.0, tag.len() + 1 + l.1))
    } else {
        None
    }
}

/// Whether `r` is what decoding the event body `s` as a LogSpellCastSuccess gives.
pub open spec fn spellcastsuccess_decoded(r: Result<(String, LogSpellCastSuccess), LogError>, s: Seq<char>) -> bool {
    match event_cells(s, cast_tag()) {
        None => r == Err::<(String, LogSpellCastSuccess), LogError>(LogError::Grammar),
        Some(p) => if p.0.len() != 28 {
            r == Err::<(String, LogSpellCastSuccess), LogError>(
                LogError::Arity { expected: 28, actual: p.0.len() as usize },
            )
        } else {
            match r {
                Ok(ok) => ok.0@ == s.skip(p.1) && cast_fields(ok.1) == p.0.take(28),
                Err(_) => false,
            }
        },
    }
}

/// Whether `r` is what decoding the event body `s` as a LogSpellDamage gives.
pub open spec fn spelldamage_decoded(r: Result<(String, LogSpellDamage), LogError>, s: Seq<char>) -> bool {
    match event_cells(s, damage_tag()) {
        None => r == Err::<(String, LogSpellDamage), LogError>(LogError::Grammar),
        Some(p) => if p.0.len() != 38 {
            r == Err::<(String, LogSpellDamage), LogError>(
                LogError::Arity { expected: 38, actual: p.0.len() as usize },
            )
        } else {
            match r {
                Ok(ok) => ok.0@ == s.skip(p.1) && damage_fields(ok.1) == p.0.take(34)
                    && ok.1.critical == truthy(p.0[34])
                    && ok.1.glancing == truthy(p.0[35])
                    && ok.1.crushing == truthy(p.0[36])
                    && ok.1.isOffHand == truthy(p.0[37]),
                Err(_) => false,
            }
        },
    }
}

/// Whether `r` is what decoding the event body `s` as a LogSpellHeal gives.
pub open spec fn spellheal_decoded(r: Result<(String, LogSpellHeal), LogError>, s: Seq<char>) -> bool {
    match event_cells(s, heal_tag()) {
        None => r == Err::<(String, LogSpellHeal), LogError>(LogError::Grammar),
        Some(p) => if p.0.len() != 33 {
            r == Err::<(String, LogSpellHeal), LogError>(
                LogError::Arity { expected: 33, actual: p.0.len() as usize },
            )
        } else {
            match r {
                Ok(ok) => ok.0@ == s.skip(p.1) && heal_fields(ok.1) == p.0.take(31)
                    && ok.1.critical == truthy(p.0[31]),
                Err(_) => false,
            }
        },
    }
}

fn starts_with_tag(s: &Vec<char>, tag: &Vec<char>) -> (r: bool)
    ensures
        r == has_tag(s@, tag@),
{
    if tag.len() >= s.len() {
        return false;
    }
    let mut i: usize = 0;
    while i < tag.len()
        invariant
            i <= tag.len() < s.len(),
            forall|j: int| 0 <= j < i ==> s@[j] == tag@[j],
        decreases tag.len() - i,
    {
        if s[i] != tag[i] {
            assert(s@.take(tag.len() as int)[i as int] != tag@[i as int]);
            return false;
        }
        i = i + 1;
    }
    assert(s@.take(tag.len() as int) =~= tag@);
    s[tag.len()] == ','
}

fn take_first(v: &mut Vec<LogCell>) -> (c: LogCell)
    requires
        old(v).len() > 0,
    ensures
        c == old(v)@[0],
        final(v)@ == old(v)@.drop_first(),
{
    v.remove(0)
}

fn event_cells_at(s: &Vec<char>, tag: &Vec<char>) -> (r: Option<(Vec<LogCell>, usize)>)
    ensures
        match r {
            None => event_cells(s@, tag@) is None,
            Some(p) => event_cells(s@, tag@) == Some((cells_view(p.0@), p.1 as int)) && p.1
                <= s.len(),
        },
{
    if !starts_with_tag(s, tag) {
        return None;
    }
    assert(tag.len() < s.len());
    let body = tag.len() + 1;
    if cell_at(s, body).is_none() {
        return None;
    }
    let (items, end) = list_at(s, body);
    Some((items, end))
}

/// Decodes a `SPELL_CAST_SUCCESS` body of exactly 28 cells.
pub fn parse_spell_cast_success_line(input: &str) -> (r: Result<(String, LogSpellCastSuccess), LogError>)
    ensures
        spellcastsuccess_decoded(r, input@),
{
    let s = chars_of(input);
    let tag = chars_of("SPELL_CAST_SUCCESS");
    match event_cells_at(&s, &tag) {
        None => Err(LogError::Grammar),
        Some((cols, end)) => {
            proof {
                lemma_cells_view(cols@);
            }
            if cols.len() != 28 {
                return Err(LogError::Arity { expected: 28, actual: cols.len() });
            }
            let ghost orig = cols@;
            let mut cols = cols;
            let rec = LogSpellCastSuccess {
                sourceGUID: take_first(&mut cols),
                sourceName: take_first(&mut cols),
                sourceFlags: take_first(&mut cols),
                sourceRaidFlags: take_first(&mut cols),
                destGUID: take_first(&mut cols),
                destName: take_first(&mut cols),
                destFlags: take_first(&mut cols),
                destRaidFlags: take_first(&mut cols),
                spellId: take_first(&mut cols),
                spellName: take_first(&mut cols),
                spellSchool: take_first(&mut cols),
                unitGUID: take_first(&mut cols),
                ownerGUID: take_first(&mut cols),
                currHp: take_first(&mut cols),
                maxHp: take_first(&mut cols),
                attackPower: take_first(&mut cols),
                spellPower: take_first(&mut cols),
                armor: take_first(&mut cols),
                totalDamageAbsorbs: take_first(&mut cols),
                resourceType: take_first(&mut cols),
                currResource: take_first(&mut cols),
                maxResource: take_first(&mut cols),
                resourceCost: take_first(&mut cols),
                y: take_first(&mut cols),
                x: take_first(&mut cols),
                mapId: take_first(&mut cols),
                facing: take_first(&mut cols),
                ilvl: take_first(&mut cols),
            };
            proof {
                assert(cast_fields(rec) =~= cells_view(orig).take(28));
            }
            Ok((string_of(&s, end, s.len()), rec))
        },
    }
}

/// Decodes a `SPELL_DAMAGE` body of exactly 38 cells; the last four become flags.
pub fn parse_spell_damage_line(input: &str) -> (r: Result<(String, LogSpellDamage), LogError>)
    ensures
        spelldamage_decoded(r, input@),
{
    let s = chars_of(input);
    let tag = chars_of("SPELL_DAMAGE");
    match event_cells_at(&s, &tag) {
        None => Err(LogError::Grammar),
        Some((cols, end)) => {
            proof {
                lemma_cells_view(cols@);
            }
            if cols.len() != 38 {
                return Err(LogError::Arity { expected: 38, actual: cols.len() });
            }
            let ghost orig = cols@;
            let mut cols = cols;
            let rec = LogSpellDamage {
                sourceGUID: take_first(&mut cols),
                sourceName: take_first(&mut cols),
                sourceFlags: take_first(&mut cols),
                sourceRaidFlags: take_first(&mut cols),
                destGUID: take_first(&mut cols),
                destName: take_first(&mut cols),
                destFlags: take_first(&mut cols),
                destRaidFlags: take_first(&mut cols),
                spellId: take_first(&mut cols),
                spellName: take_first(&mut cols),
                spellSchool: take_first(&mut cols),
                unitGUID: take_first(&mut cols),
                ownerGUID: take_first(&mut cols),
                currHp: take_first(&mut cols),
                maxHp: take_first(&mut cols),
                attackPower: take_first(&mut cols),
                spellPower: take_first(&mut cols),
                armor: take_first(&mut cols),
                totalDamageAbsorbs: take_first(&mut cols),
                resourceType: take_first(&mut cols),
                currResource: take_first(&mut cols),
                maxResource: take_first(&mut cols),
                resourceCost: take_first(&mut cols),
                y: take_first(&mut cols),
                x: take_first(&mut cols),
                mapId: take_first(&mut cols),
                facing: take_first(&mut cols),
                ilvl: take_first(&mut cols),
                amount: take_first(&mut cols),
                overkill: take_first(&mut cols),
                school: take_first(&mut cols),
                resisted: take_first(&mut cols),
                blocked: take_first(&mut cols),
                absorbed: take_first(&mut cols),
                critical: bool::from(take_first(&mut cols)),
                glancing: bool::from(take_first(&mut cols)),
                crushing: bool::from(take_first(&mut cols)),
                isOffHand: bool::from(take_first(&mut cols)),
            };
            proof {
                assert(damage_fields(rec) =~= cells_view(orig).take(34));
            }
            Ok((string_of(&s, end, s.len()), rec))
        },
    }
}

/// Decodes a `SPELL_HEAL` body of exactly 33 cells; the 32nd becomes the
/// critical flag and the last is not kept.
pub fn parse_spell_heal_line(input: &str) -> (r: Result<(String, LogSpellHeal), LogError>)
    ensures
        spellheal_decoded(r, input@),
{
    let s = chars_of(input);
    let tag = chars_of("SPELL_HEAL");
    match event_cells_at(&s, &tag) {
        None => Err(LogError::Grammar),
        Some((cols, end)) => {
            proof {
                lemma_cells_view(cols@);
            }
            if cols.len() != 33 {
                return Err(LogError::Arity { expected: 33, actual: cols.len() });
            }
            let ghost orig = cols@;
            let mut cols = cols;
            let rec = LogSpellHeal {
                sourceGUID: take_first(&mut cols),
                sourceName: take_first(&mut cols),
                sourceFlags: take_first(&mut cols),
                sourceRaidFlags: take_first(&mut cols),
                destGUID: take_first(&mut cols),
                destName: take_first(&mut cols),
                destFlags: take_first(&mut cols),
                destRaidFlags: take_first(&mut cols),
                spellId: take_first(&mut cols),
                spellName: take_first(&mut cols),
                spellSchool: take_first(&mut cols),
                unitGUID: take_first(&mut cols),
                ownerGUID: take_first(&mut cols),
                currHp: take_first(&mut cols),
                maxHp: take_first(&mut cols),
                attackPower: take_first(&mut cols),
                spellPower: take_first(&mut cols),
                armor: take_first(&mut cols),
                totalDamageAbsorbs: take_first(&mut cols),
                resourceType: take_first(&mut cols),
                currResource: take_first(&mut cols),
                maxResource: take_first(&mut cols),
                resourceCost: take_first(&mut cols),
                y: take_first(&mut cols),
                x: take_first(&mut cols),
                mapId: take_first(&mut cols),
                facing: take_first(&mut cols),
                ilvl: take_first(&mut cols),
                amount: take_first(&mut cols),
                overhealing: take_first(&mut cols),
                absorbed: take_first(&mut cols),
                critical: bool::from(take_first(&mut cols)),
            };
            proof {
                assert(heal_fields(rec) =~= cells_view(orig).take(31));
            }
            Ok((string_of(&s, end, s.len()), rec))
        },
    }
}

/// The end of the comma-free field that starts at `p`.
pub open spec fn field_end(s: Seq<char>, p: int) -> int {
    p + span(s.skip(p), CharClass::NotComma)
}

/// A field without the quotes around it, if it is quoted.
pub open spec fn unquoted(f: Seq<char>) -> Seq<char> {
    if f.len() >= 2 && f[0] == '"' && f.last() == '"' {
        f.subrange(1, f.len() - 1)
    } else {
        f
    }
}

/// Whether a line ends at position `p` of `s`: at the end of the input, or at
/// `\n`, or at `\r` followed by `\n`.
pub open spec fn line_ends_at(s: Seq<char>, p: int) -> bool {
    p == s.len() || (0 <= p < s.len() && (s[p] == '\n' || (s[p] == '\r' && p + 1 < s.len()
        && s[p + 1] == '\n')))
}

/// Whether `r` is what decoding the event body `s` as an emote gives: after
/// `EMOTE,` four non-empty fields, each ended by a comma, then text up to the
/// end of the line: the end of the input, `\n` or `\r\n`. A `\r` that no
/// `\n` follows ends no line, and the emote fails. The source name loses its
/// quotes.
pub open spec fn emote_decoded(r: Result<(String, LogEmote), LogError>, s: Seq<char>) -> bool {
    let p0 = emote_tag().len() as int + 1;
    let e0 = field_end(s, p0);
    let e1 = field_end(s, e0 + 1);
    let e2 = field_end(s, e1 + 1);
    let e3 = field_end(s, e2 + 1);
    let e4 = e3 + 1 + span(s.skip(e3 + 1), CharClass::NotLineEnd);
    if has_tag(s, emote_tag()) && p0 < e0 < s.len() && e0 + 1 < e1 < s.len() && e1 + 1 < e2
        < s.len() && e2 + 1 < e3 < s.len() && line_ends_at(s, e4) {
        match r {
            Ok(ok) => {
                &&& ok.1.sourceGUID@ == s.subrange(p0, e0)
                &&& ok.1.sourcename@ == unquoted(s.subrange(e0 + 1, e1))
                &&& ok.1.sourceflags@ == s.subrange(e1 + 1, e2)
                &&& ok.1.sourceraidflags@ == s.subrange(e2 + 1, e3)
                &&& ok.1.text@ == s.subrange(e3 + 1, e4)
                &&& ok.0@ == s.skip(e4)
            },
            Err(_) => false,
        }
    } else {
        r == Err::<(String, LogEmote), LogError>(LogError::Grammar)
    }
}

fn unquoted_string(s: &Vec<char>, start: usize, end: usize) -> (r: String)
    requires
        start <= end <= s.len(),
    ensures
        r@ == unquoted(s@.subrange(start as int, end as int)),
{
    if end - start >= 2 && s[start] == '"' && s[end - 1] == '"' {
        let r = string_of(s, start + 1, end - 1);
        assert(r@ =~= unquoted(s@.subrange(start as int, end as int)));
        r
    } else {
        string_of(s, start, end)
    }
}

/// The end of a non-empty comma-free field at `p` that a comma follows.
fn field_at(s: &Vec<char>, p: usize) -> (r: Option<usize>)
    requires
        p <= s.len(),
    ensures
        match r {
            Some(e) => e == field_end(s@, p as int) && p < e < s.len(),
            None => !(p < field_end(s@, p as int) < s.len()),
        },
{
    let e = scan(s, p, CharClass::NotComma);
    if p < e && e < s.len() {
        Some(e)
    } else {
        None
    }
}

/// Decodes an `EMOTE` body: four comma-delimited fields and free text.
pub fn parse_emote_line(input: &str) -> (r: Result<(String, LogEmote), LogError>)
    ensures
        emote_decoded(r, input@),
{
    let s = chars_of(input);
    let tag = chars_of("EMOTE");
    if !starts_with_tag(&s, &tag) {
        return Err(LogError::Grammar);
    }
    let p0 = tag.len() + 1;
    let e0 = match field_at(&s, p0) {
        Some(e) => e,
        None => return Err(LogError::Grammar),
    };
    let e1 = match field_at(&s, e0 + 1) {
        Some(e) => e,
        None => return Err(LogError::Grammar),
    };
    let e2 = match field_at(&s, e1 + 1) {
        Some(e) => e,
        None => return Err(LogError::Grammar),
    };
    let e3 = match field_at(&s, e2 + 1) {
        Some(e) => e,
        None => return Err(LogError::Grammar),
    };
    let e4 = scan(&s, e3 + 1, CharClass::NotLineEnd);
    proof {
        lemma_span(s@.skip(e3 + 1), CharClass::NotLineEnd);
    }
    if char_at(&s, e4, '\r') && !char_at(&s, e4 + 1, '\n') {
        return Err(LogError::Grammar);
    }
    let emote = LogEmote {
        sourceGUID: string_of(&s, p0, e0),
        sourcename: unquoted_string(&s, e0 + 1, e1),
        sourceflags: string_of(&s, e1 + 1, e2),
        sourceraidflags: string_of(&s, e2 + 1, e3),
        text: string_of(&s, e3 + 1, e4),
    };
    Ok((string_of(&s, e4, s.len()), emote))
}

/// The event type at the head of a body: everything before the first comma.
pub open spec fn event_tag(s: Seq<char>) -> Seq<char> {
    s.take(span(s, CharClass::NotComma) as int)
}

/// Whether `r` is what dispatching the event body `s` gives: the decoder that
/// its event type selects, `NotSupported` with the body untouched for any
/// other type, or `MissingEventTag` where the body holds no comma.
pub open spec fn row_decoded(r: Result<(String, LogRow), LogError>, s: Seq<char>) -> bool {
    let t = event_tag(s);
    if span(s, CharClass::NotComma) == s.len() {
        r == Err::<(String, LogRow), LogError>(LogError::MissingEventTag)
    } else if t == emote_tag() {
        match r {
            Ok(ok) => match ok.1 {
                LogRow::Emote(e) => emote_decoded(Ok((ok.0, e)), s),
                _ => false,
            },
            Err(e) => emote_decoded(Err(e), s),
        }
    } else if t == cast_tag() {
        match r {
            Ok(ok) => match ok.1 {
                LogRow::SpellCastSuccess(e) => spellcastsuccess_decoded(Ok((ok.0, e)), s),
                _ => false,
            },
            Err(e) => spellcastsuccess_decoded(Err(e), s),
        }
    } else if t == damage_tag() {
        match r {
            Ok(ok) => match ok.1 {
                LogRow::SpellDamage(e) => spelldamage_decoded(Ok((ok.0, e)), s),
                _ => false,
            },
            Err(e) => spelldamage_decoded(Err(e), s),
        }
    } else if t == heal_tag() {
        match r {
            Ok(ok) => match ok.1 {
                LogRow::SpellHeal(e) => spellheal_decoded(Ok((ok.0, e)), s),
                _ => false,
            },
            Err(e) => spellheal_decoded(Err(e), s),
        }
    } else {
        match r {
            Ok(ok) => ok.1 is NotSupported && ok.0@ == s,
            Err(_) => false,
        }
    }
}

/// Whether `s[0..end]` equals `lit`.
fn head_equals(s: &Vec<char>, end: usize, lit: &Vec<char>) -> (r: bool)
    requires
        end <= s.len(),
    ensures
        r == (s@.take(end as int) == lit@),
{
    if end != lit.len() {
        return false;
    }
    let mut i: usize = 0;
    while i < end
        invariant
            i <= end <= s.len(),
            end == lit.len(),
            forall|j: int| 0 <= j < i ==> s@[j] == lit@[j],
        decreases end - i,
    {
        if s[i] != lit[i] {
            assert(s@.take(end as int)[i as int] != lit@[i as int]);
            return false;
        }
        i = i + 1;
    }
    assert(s@.take(end as int) =~= lit@);
    true
}

/// Reads the event type at the head of `input` and decodes the body with the
/// matching decoder; any other event type is `NotSupported`.
pub fn parse_log_csv(input: &str) -> (r: Result<(String, LogRow), LogError>)
    ensures
        row_decoded(r, input@),
{
    let s = chars_of(input);
    let comma = scan(&s, 0, CharClass::NotComma);
    proof {
        assert(s@.skip(0) =~= s@);
    }
    if comma == s.len() {
        return Err(LogError::MissingEventTag);
    }
    if head_equals(&s, comma, &chars_of("EMOTE")) {
        match parse_emote_line(input) {
            Ok((rest, e)) => Ok((rest, LogRow::Emote(e))),
            Err(e) => Err(e),
        }
    } else if head_equals(&s, comma, &chars_of("SPELL_CAST_SUCCESS")) {
        match parse_spell_cast_success_line(input) {
            Ok((rest, e)) => Ok((rest, LogRow::SpellCastSuccess(e))),
            Err(e) => Err(e),
        }
    } else if head_equals(&s, comma, &chars_of("SPELL_DAMAGE")) {
        match parse_spell_damage_line(input) {
            Ok((rest, e)) => Ok((rest, LogRow::SpellDamage(e))),
            Err(e) => Err(e),
        }
    } else if head_equals(&s, comma, &chars_of("SPELL_HEAL")) {
        match parse_spell_heal_line(input) {
            Ok((rest, e)) => Ok((rest, LogRow::SpellHeal(e))),
            Err(e) => Err(e),
        }
    } else {
        let rest = string_of(&s, 0, s.len());
        assert(s@.subrange(0, s.len() as int) =~= s@);
        Ok((rest, LogRow::NotSupported))
    }
}

/// The event body `tag,i0,i1,...` of a non-empty `items`.
pub open spec fn event_literal(tag: Seq<char>, items: Seq<Seq<char>>) -> Seq<char> {
    tag + seq![','] + list_literal(items)
}

/// An event body written from a tag and whole cell literals has, as its
/// cells, the values that each literal decodes to on its own, and they take
/// the whole body.
pub proof fn lemma_event_cells_of_literals(tag: Seq<char>, items: Seq<Seq<char>>)
    requires
        items.len() > 0,
        forall|i: int| 0 <= i < items.len() ==> is_cell_literal(#[trigger] items[i]),
    ensures
        event_cells(event_literal(tag, items), tag) == Some(
            (
                items.map_values(|t: Seq<char>| value_of(t)),
                event_literal(tag, items).len() as int,
            ),
        ),
{
    let s = event_literal(tag, items);
    let body = list_literal(items);
    lemma_list_of_literals(items, Seq::empty());
    assert(body + Seq::<char>::empty() =~= body);
    assert(s.take(tag.len() as int) =~= tag);
    assert(s[tag.len() as int] == ',');
    assert(s.skip(tag.len() as int + 1) =~= body);
}

/// A `SPELL_DAMAGE` body of whole cell literals fails with an arity error
/// naming 38 and the number of literals, unless there are exactly 38; then it
/// decodes in full, its fields are the first 34 values and its four flags
/// are whether the last four values count as set.
pub proof fn lemma_damage_of_literals(
    items: Seq<Seq<char>>,
    r: Result<(String, LogSpellDamage), LogError>,
)
    requires
        items.len() > 0,
        forall|i: int| 0 <= i < items.len() ==> is_cell_literal(#[trigger] items[i]),
        spelldamage_decoded(r, event_literal(damage_tag(), items)),
    ensures
        items.len() != 38 ==> r == Err::<(String, LogSpellDamage), LogError>(
            LogError::Arity { expected: 38, actual: items.len() as usize },
        ),
        items.len() == 38 ==> match r {
            Ok(ok) => {
                &&& ok.0@.len() == 0
                &&& damage_fields(ok.1) == items.map_values(|t: Seq<char>| value_of(t)).take(34)
                &&& ok.1.critical == truthy(value_of(items[34]))
                &&& ok.1.glancing == truthy(value_of(items[35]))
                &&& ok.1.crushing == truthy(value_of(items[36]))
                &&& ok.1.isOffHand == truthy(value_of(items[37]))
            },
            Err(_) => false,
        },
{
    lemma_event_cells_of_literals(damage_tag(), items);
}

} // verus!
