//! GPU memory: how much of it is free, and on which device.

use vstd::prelude::*;

use crate::gguf::{lossy_string, text_of};
use crate::json::{
    atom_fields, item_fields, json_in, read_json, text_in, Atom, AtomSpec, Doc, DocSpec, Item,
    ItemSpec,
};
use crate::text::{
    begins, chars_of, contains_text, includes, number_of, parse_number, starts, trim, trim_spaces,
};
use vstd::utf8::encode_utf8;

verus! {

/// The first of the fields from `i` on whose name holds `needle`.
pub open spec fn field_with(v: Seq<(Seq<char>, AtomSpec)>, needle: Seq<char>, i: int) -> Option<
    AtomSpec,
>
    decreases v.len() - i,
{
    if i >= v.len() {
        None
    } else if contains_text(v[i].0, needle) {
        Some(v[i].1)
    } else {
        field_with(v, needle, i + 1)
    }
}

/// The first of the cards in a report: the first field from `i` on whose name
/// begins with "card".
pub open spec fn first_card(v: Seq<(Seq<char>, ItemSpec)>, i: int) -> Option<ItemSpec>
    decreases v.len() - i,
{
    if i >= v.len() {
        None
    } else if begins(v[i].0, "card"@) {
        Some(v[i].1)
    } else {
        first_card(v, i + 1)
    }
}

/// The number in the text of the field whose name holds `needle`.
pub open spec fn card_number(v: Seq<(Seq<char>, AtomSpec)>, needle: Seq<char>) -> Option<u64> {
    match text_in(field_with(v, needle, 0)) {
        Some(s) => number_of(trim_spaces(s)),
        None => None,
    }
}

/// The name of a card: its series, else its SKU, else what is said of the GPU.
pub open spec fn card_name(v: Seq<(Seq<char>, AtomSpec)>) -> Seq<char> {
    match text_in(field_with(v, "Card series"@, 0)) {
        Some(s) => s,
        None => match text_in(field_with(v, "Card SKU"@, 0)) {
            Some(s) => s,
            None => match text_in(field_with(v, "GPU"@, 0)) {
                Some(s) => s,
                None => "AMD GPU"@,
            },
        },
    }
}

/// The free memory and the name of the first card in a report.
pub open spec fn card_in(d: DocSpec) -> Option<(u64, Seq<char>)> {
    match d {
        DocSpec::Table(cards) => match first_card(cards, 0) {
            Some(ItemSpec::Record(v)) => match card_number(v, "VRAM Total Memory"@) {
                None => None,
                Some(total) => {
                    let used = match card_number(v, "VRAM Total Used Memory"@) {
                        Some(n) => n,
                        None => 0,
                    };
                    Some(
                        (
                            if used <= total {
                                (total - used) as u64
                            } else {
                                0
                            },
                            card_name(v),
                        ),
                    )
                },
            },
            _ => None,
        },
        _ => None,
    }
}

fn find_with<'a>(v: &'a [(String, Atom)], needle: &str) -> (r: Option<&'a Atom>)
    ensures
        match (r, field_with(atom_fields(v@), needle@, 0)) {
            (Some(a), Some(s)) => a@ == s,
            (None, None) => true,
            _ => false,
        },
{
    let ghost all = atom_fields(v@);
    let k = chars_of(needle);
    for i in 0..v.len()
        invariant
            all == atom_fields(v@),
            k@ == needle@,
            field_with(all, needle@, 0) == field_with(all, needle@, i as int),
    {
        assert(all[i as int] == (v@[i as int].0@, v@[i as int].1@));
        let own = chars_of(v[i].0.as_str());
        if includes(own.as_slice(), k.as_slice()) {
            return Some(&v[i].1);
        }
    }
    None
}

fn text_with<'a>(v: &'a [(String, Atom)], needle: &str) -> (r: Option<&'a str>)
    ensures
        match (r, text_in(field_with(atom_fields(v@), needle@, 0))) {
            (Some(a), Some(s)) => a@ == s,
            (None, None) => true,
            _ => false,
        },
{
    match find_with(v, needle) {
        Some(Atom::Text(s)) => Some(s.as_str()),
        _ => None,
    }
}

fn number_with(v: &[(String, Atom)], needle: &str) -> (r: Option<u64>)
    ensures
        r == card_number(atom_fields(v@), needle@),
{
    match text_with(v, needle) {
        Some(s) => {
            let all = chars_of(s);
            parse_number(trim(all.as_slice()))
        },
        None => None,
    }
}

fn name_of(v: &[(String, Atom)]) -> (r: String)
    ensures
        r@ == card_name(atom_fields(v@)),
{
    match text_with(v, "Card series") {
        Some(s) => s.to_owned(),
        None => match text_with(v, "Card SKU") {
            Some(s) => s.to_owned(),
            None => match text_with(v, "GPU") {
                Some(s) => s.to_owned(),
                None => "AMD GPU".to_owned(),
            },
        },
    }
}

/// Reads the free memory and the name of the first card from a report. The names
/// of the fields shift between versions of the tool, so parts of them decide.
pub fn card_of(d: &Doc) -> (r: Option<(u64, String)>)
    ensures
        match (r, card_in(d@)) {
            (Some(a), Some(b)) => a.0 == b.0 && a.1@ == b.1,
            (None, None) => true,
            _ => false,
        },
{
    match d {
        Doc::Table(cards) => {
            let ghost all = item_fields(cards@);
            let mark = chars_of("card");
            for i in 0..cards.len()
                invariant
                    d@ == DocSpec::Table(all),
                    all == item_fields(cards@),
                    mark@ == "card"@,
                    first_card(all, 0) == first_card(all, i as int),
            {
                assert(all[i as int] == (cards@[i as int].0@, cards@[i as int].1@));
                let own = chars_of(cards[i].0.as_str());
                if starts(own.as_slice(), mark.as_slice()) {
                    return match &cards[i].1 {
                        Item::Record(v) => card_from(v.as_slice()),
                        Item::Plain(_) => None,
                    };
                }
            }
            None
        },
        _ => None,
    }
}

fn card_from(v: &[(String, Atom)]) -> (r: Option<(u64, String)>)
    ensures
        ({
            let f = atom_fields(v@);
            match card_number(f, "VRAM Total Memory"@) {
                None => r is None,
                Some(total) => {
                    let used = match card_number(f, "VRAM Total Used Memory"@) {
                        Some(n) => n,
                        None => 0,
                    };
                    &&& r matches Some(c)
                    &&& c.0 == (if used <= total {
                        total - used
                    } else {
                        0
                    })
                    &&& c.1@ == card_name(f)
                },
            }
        }),
{
    match number_with(v, "VRAM Total Memory") {
        None => None,
        Some(total) => {
            let used: u64 = match number_with(v, "VRAM Total Used Memory") {
                Some(n) => n,
                None => 0,
            };
            let free: u64 = if used <= total {
                total - used
            } else {
                0
            };
            Some((free, name_of(v)))
        },
    }
}

/// The free memory and the name of the first card in the text of a report.
pub open spec fn report_card(text: Seq<char>) -> Option<(u64, Seq<char>)> {
    match json_in(encode_utf8(text)) {
        Some(d) => card_in(d),
        None => None,
    }
}

/// Reads the free memory and the name of the first card from the text of a
/// report.
pub fn parse_rocm_smi(json: &str) -> (r: Option<(u64, String)>)
    ensures
        match (r, report_card(json@)) {
            (Some(a), Some(b)) => a.0 == b.0 && a.1@ == b.1,
            (None, None) => true,
            _ => false,
        },
{
    match read_json(json.as_bytes()) {
        Ok(d) => card_of(&d),
        Err(_) => None,
    }
}

/// What stands for the memory that was found.
#[derive(Debug, Clone, Copy, PartialEq, Eq, Structural)]
pub enum Meaning {
    /// Free memory, as the NVIDIA management library reports it.
    NvmlFree,
    /// Free memory, as the ROCm tool reports it.
    RocmFree,
}

impl Meaning {
    /// The meaning in words.
    pub fn text(self) -> (r: &'static str)
        ensures
            r@ == (match self {
                Meaning::NvmlFree => "NVML free VRAM"@,
                Meaning::RocmFree => "ROCm free VRAM (rocm-smi)"@,
            }),
    {
        match self {
            Meaning::NvmlFree => "NVML free VRAM",
            Meaning::RocmFree => "ROCm free VRAM (rocm-smi)",
        }
    }
}

/// Which of two findings counts: what the NVIDIA library reports, else what the
/// ROCm tool printed.
pub fn probe(nvml: Option<(u64, String)>, rocm_output: Option<&[u8]>) -> (r: Option<
    (u64, String, Meaning),
>)
    ensures
        match nvml {
            Some((free, name)) => r == Some((free, name, Meaning::NvmlFree)),
            None => match rocm_output {
                None => r is None,
                Some(out) => match report_card(text_of(out@)) {
                    None => r is None,
                    Some((free, name)) => r matches Some(c) && c.0 == free && c.1@ == name && c.2
                        == Meaning::RocmFree,
                },
            },
        },
{
    match nvml {
        Some((free, name)) => Some((free, name, Meaning::NvmlFree)),
        None => match rocm_output {
            None => None,
            Some(out) => {
                let text = lossy_string(out);
                match parse_rocm_smi(text.as_str()) {
                    None => None,
                    Some((free, name)) => Some((free, name, Meaning::RocmFree)),
                }
            },
        },
    }
}

/// Of several fields whose name holds a text the first counts.
pub proof fn the_first_field_with_a_name_counts(
    v: Seq<(Seq<char>, AtomSpec)>,
    needle: Seq<char>,
    i: int,
    j: int,
)
    requires
        0 <= i <= j < v.len(),
        contains_text(v[j].0, needle),
        forall|k: int| i <= k < j ==> !contains_text((#[trigger] v[k]).0, needle),
    ensures
        field_with(v, needle, i) == Some(v[j].1),
    decreases j - i,
{
    if i < j {
        the_first_field_with_a_name_counts(v, needle, i + 1, j);
    }
}

/// The first field of a report whose name begins with `card` is the card.
pub proof fn the_first_card_counts(v: Seq<(Seq<char>, ItemSpec)>, i: int, j: int)
    requires
        0 <= i <= j < v.len(),
        v[j].0.len() >= 4,
        v[j].0.subrange(0, 4) == seq!['c', 'a', 'r', 'd'],
        forall|k: int|
            i <= k < j ==> (#[trigger] v[k]).0.len() < 4 || v[k].0.subrange(0, 4) != seq![
                'c',
                'a',
                'r',
                'd',
            ],
    ensures
        first_card(v, i) == Some(v[j].1),
    decreases j - i,
{
    reveal_strlit("card");
    assert("card"@ =~= seq!['c', 'a', 'r', 'd']);
    if i < j {
        the_first_card_counts(v, i + 1, j);
    }
}

/// The free memory of a card is its total memory less what is used of it, and nothing
/// where more is used than there is. Where nothing is said of the use, none is used.
pub proof fn free_memory_is_what_is_not_used(
    cards: Seq<(Seq<char>, ItemSpec)>,
    v: Seq<(Seq<char>, AtomSpec)>,
    total: u64,
    used: u64,
)
    requires
        first_card(cards, 0) == Some(ItemSpec::Record(v)),
        card_number(v, "VRAM Total Memory"@) == Some(total),
    ensures
        card_number(v, "VRAM Total Used Memory"@) == Some(used) ==> (card_in(
            DocSpec::Table(cards),
        ) matches Some(c) && c.0 == (if total >= used {
            total - used
        } else {
            0
        })),
        card_number(v, "VRAM Total Used Memory"@) is None ==> (card_in(
            DocSpec::Table(cards),
        ) matches Some(c) && c.0 == total),
{
}

/// Without a card, or without its total memory, nothing is known.
pub proof fn unknown_cards_give_nothing(
    cards: Seq<(Seq<char>, ItemSpec)>,
    v: Seq<(Seq<char>, AtomSpec)>,
)
    ensures
        first_card(cards, 0) is None ==> card_in(DocSpec::Table(cards)) is None,
        first_card(cards, 0) == Some(ItemSpec::Record(v)) && card_number(
            v,
            "VRAM Total Memory"@,
        ) is None ==> card_in(DocSpec::Table(cards)) is None,
{
}

/// The numbers of a card are texts, read without the space around them.
pub proof fn card_numbers_are_texts(
    v: Seq<(Seq<char>, AtomSpec)>,
    needle: Seq<char>,
    s: Seq<char>,
    n: u64,
)
    ensures
        field_with(v, needle, 0) == Some(AtomSpec::Text(s)) ==> card_number(v, needle)
            == number_of(trim_spaces(s)),
        field_with(v, needle, 0) == Some(AtomSpec::Number(Some(n))) ==> card_number(
            v,
            needle,
        ) is None,
        field_with(v, needle, 0) is None ==> card_number(v, needle) is None,
{
}

/// The name of a card is its series, if that is a text, else its SKU, else what is said
/// of the GPU.
pub proof fn cards_are_named_by_their_series(v: Seq<(Seq<char>, AtomSpec)>, s: Seq<char>)
    ensures
        ({
            let a = field_with(v, "Card series"@, 0);
            let b = field_with(v, "Card SKU"@, 0);
            let c = field_with(v, "GPU"@, 0);
            let known = Some(AtomSpec::Text(s));
            &&& a == known ==> card_name(v) == s
            &&& a is None && b == known ==> card_name(v) == s
            &&& a is None && b is None && c == known ==> card_name(v) == s
            &&& a is None && b is None && c is None ==> card_name(v) == "AMD GPU"@
        }),
{
}

} // verus!
