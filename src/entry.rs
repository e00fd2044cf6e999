//! The 24-byte file record and the header table built from it.

use crate::bytes::{
    be16, be16_bytes, be32, be32_bytes, uint16_from_bytes, uint16_to_bytes, uint32_from_bytes,
    uint32_to_bytes,
};
use vstd::prelude::*;
use crate::error::ArchiveError;
use vstd::utf8::{decode_utf8, encode_utf8, valid_utf8};

verus! {

/// Size of a Mode-1 CD-ROM sector, in bytes.
pub const SECTOR_LENGTH: usize = 2048;

/// Size of one record of the header table, in bytes.
pub const RECORD_LENGTH: usize = 24;

/// Size of the name field at the front of a record, in bytes.
pub const NAME_LENGTH: usize = 12;

/// One record of the header table.
pub struct FileEntry {
    pub name: String,
    /// Sector at which the file's contents begin.
    pub start: u16,
    /// Sector bound stored for compatibility; reading never relies on it.
    pub end: u16,
    /// Exact length of the file's contents, in bytes.
    pub length: u32,
}

/// What a record says, as mathematical values.
pub struct EntryModel {
    pub name: Seq<char>,
    pub start: nat,
    pub end: nat,
    pub length: nat,
}

impl View for FileEntry {
    type V = EntryModel;

    open spec fn view(&self) -> EntryModel {
        EntryModel {
            name: self.name@,
            start: self.start as nat,
            end: self.end as nat,
            length: self.length as nat,
        }
    }
}

/// `n` zero bytes.
pub open spec fn zeros(n: nat) -> Seq<u8> {
    Seq::new(n, |i: int| 0u8)
}

/// A name fits a record: it is not empty, holds no null byte, and its UTF-8
/// encoding takes at most twelve bytes.
pub open spec fn valid_name(name: Seq<char>) -> bool {
    let b = encode_utf8(name);
    &&& 0 < b.len() <= NAME_LENGTH
    &&& forall|i: int| 0 <= i < b.len() ==> b[i] != 0
}

/// The name field of a record: the name's bytes, null-padded to twelve.
pub open spec fn name_field(name: Seq<char>) -> Seq<u8> {
    let b = encode_utf8(name);
    b + zeros((NAME_LENGTH - b.len()) as nat)
}

/// The 24 bytes that encode an entry.
pub open spec fn encode_record(e: EntryModel) -> Seq<u8> {
    name_field(e.name) + zeros(2) + be16_bytes(e.start as int) + zeros(2) + be16_bytes(
        e.end as int,
    ) + be32_bytes(e.length as int)
}

/// The index of the first null byte of `b` at or after `i`, or the length of
/// `b` when there is none.
pub open spec fn nul_index(b: Seq<u8>, i: nat) -> nat
    decreases b.len() - i,
{
    if i >= b.len() || b[i as int] == 0 {
        i
    } else {
        nul_index(b, i + 1)
    }
}

/// The bytes of a record's name: its first twelve bytes up to the first null.
pub open spec fn record_name_bytes(r: Seq<u8>) -> Seq<u8> {
    r.subrange(0, nul_index(r.subrange(0, NAME_LENGTH as int), 0) as int)
}

/// What a record decodes to: nothing for a padding slot (a leading null byte)
/// or a name that is not UTF-8, else the name and the three numbers.
pub open spec fn decode_record(r: Seq<u8>) -> Option<EntryModel> {
    if r[0] == 0 || !valid_utf8(record_name_bytes(r)) {
        None
    } else {
        Some(
            EntryModel {
                name: decode_utf8(record_name_bytes(r)),
                start: be16(r.subrange(14, 16)) as nat,
                end: be16(r.subrange(18, 20)) as nat,
                length: be32(r.subrange(20, 24)) as nat,
            },
        )
    }
}

/// Relies on std's `String::from_utf8`: it succeeds exactly on valid UTF-8,
/// with the characters that the bytes encode.
#[verifier::external_body]
fn string_from_utf8(bytes: Vec<u8>) -> (r: Option<String>)
    ensures
        match r {
            Some(s) => valid_utf8(bytes@) && s@ == decode_utf8(bytes@),
            None => !valid_utf8(bytes@),
        },
{
    String::from_utf8(bytes).ok()
}

/// Appends `n` zero bytes.
pub fn push_zeros(v: &mut Vec<u8>, n: usize)
    ensures
        final(v)@ == old(v)@ + zeros(n as nat),
{
    let ghost start = v@;
    let mut i: usize = 0;
    while i < n
        invariant
            i <= n,
            v@ == start + zeros(i as nat),
        decreases n - i,
    {
        v.push(0);
        i = i + 1;
        assert(v@ =~= start + zeros(i as nat));
    }
}

impl FileEntry {
    /// Decodes one record from the first 24 bytes of `data`.
    pub fn parse_file_listing(data: &[u8]) -> (r: Option<FileEntry>)
        requires
            data@.len() >= RECORD_LENGTH,
        ensures
            match r {
                Some(e) => decode_record(data@) == Some(e@),
                None => decode_record(data@) is None,
            },
            data@[0] == 0 ==> r is None,
    {
        // A name cannot begin with a null byte, so such a slot is padding.
        if data[0] == 0 {
            return None;
        }
        let ghost field = data@.subrange(0, NAME_LENGTH as int);
        let mut filename: Vec<u8> = Vec::new();
        let mut i: usize = 0;
        while i < NAME_LENGTH && data[i] != 0
            invariant
                i <= NAME_LENGTH,
                data@.len() >= RECORD_LENGTH,
                field == data@.subrange(0, NAME_LENGTH as int),
                nul_index(field, i as nat) == nul_index(field, 0),
                filename@ == data@.subrange(0, i as int),
            decreases NAME_LENGTH - i,
        {
            filename.push(data[i]);
            i = i + 1;
            assert(filename@ =~= data@.subrange(0, i as int));
        }
        assert(nul_index(field, i as nat) == i);
        let name = match string_from_utf8(filename) {
            Some(s) => s,
            None => return None,
        };
        let start = uint16_from_bytes([data[14], data[15]]);
        let end = uint16_from_bytes([data[18], data[19]]);
        let length = uint32_from_bytes([data[20], data[21], data[22], data[23]]);
        assert(data@.subrange(14, 16) =~= seq![data@[14], data@[15]]);
        assert(data@.subrange(18, 20) =~= seq![data@[18], data@[19]]);
        assert(data@.subrange(20, 24) =~= seq![data@[20], data@[21], data@[22], data@[23]]);
        Some(FileEntry { name, start, end, length })
    }
}

impl FileEntry {
    /// Encodes the entry as a 24-byte record.
    pub fn serialize(&self) -> (r: Vec<u8>)
        requires
            encode_utf8(self.name@).len() <= NAME_LENGTH,
        ensures
            r@ == encode_record(self@),
            r@.len() == RECORD_LENGTH,
    {
        // The name is at most 12 bytes (8.3 with the dot), null-padded.
        let mut data = vstd::slice::slice_to_vec(self.name.as_str().as_bytes());
        let pad = NAME_LENGTH - data.len();
        push_zeros(&mut data, pad);
        let mut reserved = uint16_to_bytes(0);
        assert(reserved@ =~= zeros(2));
        data.append(&mut reserved);
        data.append(&mut uint16_to_bytes(self.start));
        let mut reserved = uint16_to_bytes(0);
        assert(reserved@ =~= zeros(2));
        data.append(&mut reserved);
        data.append(&mut uint16_to_bytes(self.end));
        data.append(&mut uint32_to_bytes(self.length));
        assert(data@ =~= encode_record(self@));
        data
    }
}

/// Whether `name` fits a record (see `valid_name`).
pub fn name_fits(name: &String) -> (r: bool)
    ensures
        r == valid_name(name@),
{
    let b = name.as_str().as_bytes();
    if b.len() == 0 || b.len() > NAME_LENGTH {
        return false;
    }
    let mut i: usize = 0;
    while i < b.len()
        invariant
            i <= b@.len(),
            b@ == encode_utf8(name@),
            forall|j: int| 0 <= j < i ==> b@[j] != 0,
        decreases b@.len() - i,
    {
        if b[i] == 0 {
            return false;
        }
        i = i + 1;
    }
    true
}

/// Joins two vectors.
pub fn fold_vecs<T>(a: Vec<T>, b: Vec<T>) -> (r: Vec<T>)
    ensures
        r@ == a@ + b@,
{
    let mut a = a;
    let mut b = b;
    a.append(&mut b);
    a
}

/// Sectors taken by the header of a table of `n` entries: one more than the
/// whole sectors that the records fill, so at least one.
pub open spec fn header_sectors(n: nat) -> nat {
    (n * (RECORD_LENGTH as nat)) / (SECTOR_LENGTH as nat) + 1
}

/// The `end` field of an entry that starts at sector `start`.
pub open spec fn end_sector(start: nat, length: nat) -> nat {
    (start + length) / (SECTOR_LENGTH as nat) + 1
}

/// The sector at which entry `i` starts: the first after the header, then
/// each start advanced by the previous entry's `end` field.
pub open spec fn start_of(lengths: Seq<nat>, i: nat) -> nat
    decreases i,
{
    if i == 0 {
        header_sectors(lengths.len())
    } else {
        let s = start_of(lengths, (i - 1) as nat);
        s + end_sector(s, lengths[i - 1])
    }
}

/// Entry `i` of the table built for files of these names and lengths.
pub open spec fn entry_at(names: Seq<Seq<char>>, lengths: Seq<nat>, i: nat) -> EntryModel {
    EntryModel {
        name: names[i as int],
        start: start_of(lengths, i),
        end: end_sector(start_of(lengths, i), lengths[i as int]),
        length: lengths[i as int],
    }
}

/// The table built for files of these names and lengths.
pub open spec fn layout(names: Seq<Seq<char>>, lengths: Seq<nat>) -> Seq<EntryModel> {
    Seq::new(lengths.len(), |i: int| entry_at(names, lengths, i as nat))
}

/// The numbers of entry `i` fit their fields: sectors in 16 bits, the
/// length in 32.
pub open spec fn entry_fits(lengths: Seq<nat>, i: int) -> bool {
    &&& lengths[i] <= 0xFFFF_FFFF
    &&& start_of(lengths, i as nat) <= 0xFFFF
    &&& end_sector(start_of(lengths, i as nat), lengths[i]) <= 0xFFFF
}

/// Every number of the table fits its field.
pub open spec fn layout_fits(lengths: Seq<nat>) -> bool {
    &&& header_sectors(lengths.len()) <= 0xFFFF
    &&& forall|i: int| 0 <= i < lengths.len() ==> #[trigger] entry_fits(lengths, i)
}

/// The names of a list of (name, length) pairs.
pub open spec fn input_names(files: Seq<(String, u64)>) -> Seq<Seq<char>> {
    files.map_values(|f: (String, u64)| f.0@)
}

/// The lengths of a list of (name, length) pairs.
pub open spec fn input_lengths(files: Seq<(String, u64)>) -> Seq<nat> {
    files.map_values(|f: (String, u64)| f.1 as nat)
}

/// Every name fits a record.
pub open spec fn names_valid(names: Seq<Seq<char>>) -> bool {
    forall|i: int| 0 <= i < names.len() ==> #[trigger] valid_name(names[i])
}

/// The records of `es`, one after another.
pub open spec fn encode_records(es: Seq<EntryModel>) -> Seq<u8>
    decreases es.len(),
{
    if es.len() == 0 {
        seq![]
    } else {
        encode_records(es.drop_last()) + encode_record(es.last())
    }
}

/// Length of `len` bytes rounded up to the next sector boundary, a whole
/// sector further when already on one.
pub open spec fn padded_len(len: nat) -> nat {
    (len / (SECTOR_LENGTH as nat)) * (SECTOR_LENGTH as nat) + SECTOR_LENGTH as nat
}

/// The serialized header: the records, then zeros to `padded_len`.
pub open spec fn header_bytes(es: Seq<EntryModel>) -> Seq<u8> {
    let b = encode_records(es);
    b + zeros((padded_len(b.len()) - b.len()) as nat)
}

/// Every name of `es` takes at most twelve bytes.
pub open spec fn names_fit(es: Seq<EntryModel>) -> bool {
    forall|i: int| 0 <= i < es.len() ==> encode_utf8(#[trigger] es[i].name).len() <= NAME_LENGTH
}

/// Every record is 24 bytes long, and record `i` stands at `24 * i`.
pub proof fn lemma_encode_records(es: Seq<EntryModel>)
    requires
        names_fit(es),
    ensures
        encode_records(es).len() == es.len() * RECORD_LENGTH,
        forall|i: int|
            0 <= i < es.len() ==> encode_records(es).subrange(
                i * RECORD_LENGTH,
                i * RECORD_LENGTH + RECORD_LENGTH,
            ) == #[trigger] encode_record(es[i]),
    decreases es.len(),
{
    if es.len() > 0 {
        let init = es.drop_last();
        assert(names_fit(init)) by {
            assert forall|i: int| 0 <= i < init.len() implies encode_utf8(
                #[trigger] init[i].name,
            ).len() <= NAME_LENGTH by {
                assert(init[i] == es[i]);
            }
        }
        lemma_encode_records(init);
        lemma_record_len(es.last());
        let b = encode_records(es);
        assert forall|i: int| 0 <= i < es.len() implies b.subrange(
            i * RECORD_LENGTH,
            i * RECORD_LENGTH + RECORD_LENGTH,
        ) == #[trigger] encode_record(es[i]) by {
            if i < init.len() {
                assert(init[i] == es[i]);
                assert(b.subrange(i * RECORD_LENGTH, i * RECORD_LENGTH + RECORD_LENGTH)
                    =~= encode_records(init).subrange(
                    i * RECORD_LENGTH,
                    i * RECORD_LENGTH + RECORD_LENGTH,
                ));
            } else {
                assert(b.subrange(i * RECORD_LENGTH, i * RECORD_LENGTH + RECORD_LENGTH)
                    =~= encode_record(es.last()));
            }
        }
    }
}

/// A record is 24 bytes long when the name takes at most twelve.
pub proof fn lemma_record_len(e: EntryModel)
    ensures
        encode_utf8(e.name).len() <= NAME_LENGTH ==> encode_record(e).len() == RECORD_LENGTH,
{
}

/// The header table: one entry per packed file, in packing order.
pub struct FileList {
    pub files: Vec<FileEntry>,
}

impl View for FileList {
    type V = Seq<EntryModel>;

    open spec fn view(&self) -> Seq<EntryModel> {
        self.files@.map_values(|e: FileEntry| e@)
    }
}

impl FileList {
    /// Every name fits a record, and the header's sector count fits a field.
    pub open spec fn wf(&self) -> bool {
        &&& names_valid(self@.map_values(|e: EntryModel| e.name))
        &&& header_sectors(self@.len()) <= 0xFFFF
    }

    /// Lays out files, given as (name, length in bytes) in packing order:
    /// the first starts on the sector after the header, each next one
    /// `end` sectors after the start of the one before it.
    pub fn build(files: &Vec<(String, u64)>) -> (r: Result<FileList, ArchiveError>)
        ensures
            match r {
                Ok(list) => {
                    &&& names_valid(input_names(files@))
                    &&& layout_fits(input_lengths(files@))
                    &&& list@ == layout(input_names(files@), input_lengths(files@))
                    &&& list.wf()
                },
                Err(ArchiveError::InvalidName) => !names_valid(input_names(files@)),
                Err(ArchiveError::TooLarge) => names_valid(input_names(files@)) && !layout_fits(
                    input_lengths(files@),
                ),
                Err(_) => false,
            },
    {
        let ghost names = input_names(files@);
        let ghost lengths = input_lengths(files@);
        let n = files.len();
        let mut k: usize = 0;
        while k < n
            invariant
                n == files@.len(),
                names == input_names(files@),
                forall|j: int| 0 <= j < k ==> #[trigger] valid_name(names[j]),
            decreases n - k,
        {
            if !name_fits(&files[k].0) {
                assert(names[k as int] == files@[k as int].0@);
                assert(!valid_name(names[k as int]));
                return Err(ArchiveError::InvalidName);
            }
            k = k + 1;
        }
        // More than 85 files take a header of several sectors.
        if n as u64 > 0xFFFF_FFFF {
            return Err(ArchiveError::TooLarge);
        }
        let header = (n as u64 * RECORD_LENGTH as u64) / SECTOR_LENGTH as u64 + 1;
        if header > 0xFFFF {
            return Err(ArchiveError::TooLarge);
        }
        let mut cursor: u64 = header;
        let mut entries: Vec<FileEntry> = Vec::new();
        let mut i: usize = 0;
        while i < n
            invariant
                n == files@.len(),
                names == input_names(files@),
                lengths == input_lengths(files@),
                names_valid(names),
                header_sectors(n as nat) <= 0xFFFF,
                i <= n,
                cursor == start_of(lengths, i as nat),
                cursor <= 0x2_0000,
                entries@.len() == i,
                forall|j: int| 0 <= j < i ==> (#[trigger] entries@[j])@ == entry_at(names, lengths, j as nat),
                forall|j: int| 0 <= j < i ==> #[trigger] entry_fits(lengths, j),
            decreases n - i,
        {
            let length = files[i].1;
            assert(lengths[i as int] == length as nat);
            assert(names[i as int] == files@[i as int].0@);
            if cursor > 0xFFFF || length > 0xFFFF_FFFF {
                assert(!entry_fits(lengths, i as int));
                return Err(ArchiveError::TooLarge);
            }
            let end = (cursor + length) / SECTOR_LENGTH as u64 + 1;
            if end > 0xFFFF {
                assert(!entry_fits(lengths, i as int));
                return Err(ArchiveError::TooLarge);
            }
            entries.push(FileEntry {
                name: files[i].0.clone(),
                start: cursor as u16,
                end: end as u16,
                length: length as u32,
            });
            proof {
                assert(end_sector(start_of(lengths, i as nat), lengths[i as int]) == end);
                assert(start_of(lengths, (i + 1) as nat) == cursor + end);
                assert(entry_fits(lengths, i as int));
            }
            cursor = cursor + end;
            i = i + 1;
        }
        assert(lengths.len() == n);
        assert(header_sectors(lengths.len()) <= 0xFFFF);
        assert(layout_fits(lengths));
        let list = FileList { files: entries };
        assert(list@ =~= layout(names, lengths));
        assert(list@.map_values(|e: EntryModel| e.name) =~= names);
        Ok(list)
    }
    /// Encodes the table: each record in order, then zeros up to the next
    /// sector boundary, a whole sector of them when already on one.
    pub fn serialize(&self) -> (r: Vec<u8>)
        requires
            self.wf(),
        ensures
            r@ == header_bytes(self@),
            r@.len() == header_sectors(self@.len()) * SECTOR_LENGTH,
    {
        let ghost es = self@;
        proof {
            assert(names_fit(es)) by {
                assert forall|i: int| 0 <= i < es.len() implies encode_utf8(
                    #[trigger] es[i].name,
                ).len() <= NAME_LENGTH by {
                    assert(valid_name(es.map_values(|e: EntryModel| e.name)[i]));
                }
            }
            lemma_encode_records(es);
        }
        let mut serialized: Vec<u8> = Vec::new();
        let mut i: usize = 0;
        while i < self.files.len()
            invariant
                es == self@,
                names_fit(es),
                header_sectors(es.len()) <= 0xFFFF,
                i <= es.len(),
                serialized@ == encode_records(es.take(i as int)),
                serialized@.len() == i * RECORD_LENGTH,
            decreases es.len() - i,
        {
            assert(encode_utf8(es[i as int].name).len() <= NAME_LENGTH);
            let record = self.files[i].serialize();
            serialized = fold_vecs(serialized, record);
            proof {
                assert(es.take(i + 1).drop_last() =~= es.take(i as int));
                assert(es.take(i + 1).last() == es[i as int]);
            }
            i = i + 1;
        }
        assert(es.take(i as int) =~= es);
        // Pad out with zeros to reach a sector boundary.
        let len = serialized.len();
        let padded_size = (len / SECTOR_LENGTH) * SECTOR_LENGTH + SECTOR_LENGTH;
        push_zeros(&mut serialized, padded_size - len);
        serialized
    }
}

/// `nul_index` finds the first null byte at or after `i`.
pub proof fn lemma_nul_index(b: Seq<u8>, i: nat, k: nat)
    requires
        i <= k <= b.len(),
        forall|j: int| i <= j < k ==> b[j] != 0,
        k == b.len() || b[k as int] == 0,
    ensures
        nul_index(b, i) == k,
    decreases k - i,
{
    if i < k {
        lemma_nul_index(b, i + 1, k);
    }
}

/// A record whose first byte is null is a padding slot: it never decodes to
/// an entry, whatever its other 23 bytes hold.
pub proof fn lemma_padding_slot(r: Seq<u8>)
    requires
        r.len() == RECORD_LENGTH,
        r[0] == 0,
    ensures
        decode_record(r) is None,
{
}

/// An entry whose name and numbers fit the record decodes back to itself.
pub proof fn lemma_decode_encode(e: EntryModel)
    requires
        valid_name(e.name),
        e.start <= 0xFFFF,
        e.end <= 0xFFFF,
        e.length <= 0xFFFF_FFFF,
    ensures
        encode_record(e).len() == RECORD_LENGTH,
        decode_record(encode_record(e)) == Some(e),
{
    broadcast use vstd::utf8::encode_utf8_valid_utf8, vstd::utf8::encode_utf8_decode_utf8;

    let r = encode_record(e);
    let b = encode_utf8(e.name);
    let field = r.subrange(0, NAME_LENGTH as int);
    assert(field =~= name_field(e.name));
    lemma_nul_index(field, 0, b.len());
    assert(record_name_bytes(r) =~= b);
    assert(r[0] == b[0]);
    crate::bytes::lemma_be16_round_trip(e.start as int);
    crate::bytes::lemma_be16_round_trip(e.end as int);
    crate::bytes::lemma_be32_round_trip(e.length as int);
    assert(r.subrange(14, 16) =~= be16_bytes(e.start as int));
    assert(r.subrange(18, 20) =~= be16_bytes(e.end as int));
    assert(r.subrange(20, 24) =~= be32_bytes(e.length as int));
}

/// Every name that fits a record takes at most twelve bytes.
pub proof fn lemma_names_fit(names: Seq<Seq<char>>, lengths: Seq<nat>)
    requires
        names.len() == lengths.len(),
        names_valid(names),
    ensures
        names_fit(layout(names, lengths)),
{
    let es = layout(names, lengths);
    assert forall|i: int| 0 <= i < es.len() implies encode_utf8(#[trigger] es[i].name).len()
        <= NAME_LENGTH by {
        assert(valid_name(names[i]));
    }
}

/// The header describes itself: its first record decodes to the first
/// entry, whose start sector times 2048 is the header's length in bytes.
pub proof fn lemma_header_self_describing(names: Seq<Seq<char>>, lengths: Seq<nat>)
    requires
        names.len() == lengths.len(),
        lengths.len() >= 1,
        names_valid(names),
        layout_fits(lengths),
    ensures
        header_bytes(layout(names, lengths)).len() >= SECTOR_LENGTH,
        decode_record(header_bytes(layout(names, lengths)).subrange(0, RECORD_LENGTH as int))
            == Some(layout(names, lengths)[0]),
        layout(names, lengths)[0].start * (SECTOR_LENGTH as nat) == header_bytes(
            layout(names, lengths),
        ).len(),
{
    let es = layout(names, lengths);
    let n = lengths.len();
    lemma_names_fit(names, lengths);
    lemma_encode_records(es);
    assert(entry_fits(lengths, 0));
    assert(valid_name(names[0]));
    lemma_decode_encode(es[0]);
    let b = encode_records(es);
    assert(b.len() == n * 24);
    assert(padded_len(b.len()) == header_sectors(n) * 2048) by (nonlinear_arith)
        requires
            b.len() == n * 24,
            padded_len(b.len()) == (b.len() / 2048) * 2048 + 2048,
            header_sectors(n) == (n * 24) / 2048 + 1,
    ;
    assert(padded_len(b.len()) >= b.len()) by (nonlinear_arith)
        requires
            padded_len(b.len()) == (b.len() / 2048) * 2048 + 2048,
    ;
    assert(b.subrange(0, 24) == encode_record(es[0]));
    assert(header_bytes(es).subrange(0, 24) =~= b.subrange(0, 24));
}

} // verus!
