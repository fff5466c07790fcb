//! The records that pair a slot address with its string.

use vstd::prelude::*;

verus! {

/// A slot address with the text of its string.
#[derive(Clone, Debug, PartialEq, Eq)]
pub struct StringRecord {
    pub address: u32,
    pub text: String,
}

/// A slot address with the bytes of its string in the legacy encoding.
#[derive(Clone, Debug, PartialEq, Eq)]
pub struct RawRecord {
    pub address: u32,
    pub bytes: Vec<u8>,
}

/// What a `StringRecord` stands for.
pub struct TextEntry {
    pub address: u32,
    pub text: Seq<char>,
}

/// What a `RawRecord` stands for.
pub struct RawEntry {
    pub address: u32,
    pub bytes: Seq<u8>,
}

impl View for StringRecord {
    type V = TextEntry;

    open spec fn view(&self) -> TextEntry {
        TextEntry { address: self.address, text: self.text@ }
    }
}

impl View for RawRecord {
    type V = RawEntry;

    open spec fn view(&self) -> RawEntry {
        RawEntry { address: self.address, bytes: self.bytes@ }
    }
}

/// What a list of `StringRecord`s stands for.
pub open spec fn text_entries(records: Seq<StringRecord>) -> Seq<TextEntry> {
    Seq::new(records.len(), |i: int| records[i]@)
}

/// What a list of `RawRecord`s stands for.
pub open spec fn raw_entries(records: Seq<RawRecord>) -> Seq<RawEntry> {
    Seq::new(records.len(), |i: int| records[i]@)
}

/// The entries of a list with one more record are those of the list, then
/// that of the record.
pub proof fn lemma_text_entries_push(records: Seq<StringRecord>, r: StringRecord)
    ensures
        text_entries(records.push(r)) == text_entries(records).push(r@),
{
    assert(text_entries(records.push(r)) =~= text_entries(records).push(r@));
}

/// The entries of a list with one more record are those of the list, then
/// that of the record.
pub proof fn lemma_raw_entries_push(records: Seq<RawRecord>, r: RawRecord)
    ensures
        raw_entries(records.push(r)) == raw_entries(records).push(r@),
{
    assert(raw_entries(records.push(r)) =~= raw_entries(records).push(r@));
}

} // verus!
