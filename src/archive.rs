//! Packing files into an archive blob and reading them back out.

use crate::entry::{
    entry_fits, lemma_decode_encode, lemma_encode_records, lemma_header_self_describing,
    lemma_names_fit, valid_name, encode_record,
    end_sector, input_lengths, input_names, start_of,
    decode_record, encode_records, header_bytes, header_sectors, layout, layout_fits, names_valid,
    padded_len, push_zeros, zeros, EntryModel, FileEntry, FileList, RECORD_LENGTH, SECTOR_LENGTH,
};
use crate::error::ArchiveError;
use vstd::prelude::*;

verus! {

/// The header's length in sectors, as the blob's first record gives it:
/// nothing when the blob is shorter than a record or that record does not
/// decode.
pub open spec fn header_start(data: Seq<u8>) -> Option<nat> {
    if data.len() < RECORD_LENGTH {
        None
    } else {
        match decode_record(data.subrange(0, RECORD_LENGTH as int)) {
            Some(e) => Some(e.start),
            None => None,
        }
    }
}

/// The entries decoded from the first `count` whole records of `data`, in
/// order, padding slots left out.
pub open spec fn parse_table(data: Seq<u8>, count: nat) -> Seq<EntryModel>
    decreases count,
{
    if count == 0 {
        seq![]
    } else {
        let k = count - 1;
        let rest = parse_table(data, k as nat);
        match decode_record(data.subrange(k * RECORD_LENGTH, k * RECORD_LENGTH + RECORD_LENGTH)) {
            Some(e) => rest.push(e),
            None => rest,
        }
    }
}

/// Number of whole records in a header of `sectors` sectors.
pub open spec fn table_slots(sectors: nat) -> nat {
    sectors * (SECTOR_LENGTH as nat) / (RECORD_LENGTH as nat)
}

/// Byte offset at which an entry's contents begin.
pub open spec fn offset_of(e: EntryModel) -> nat {
    e.start * (SECTOR_LENGTH as nat)
}

/// The blob holds the whole of the entry's contents.
pub open spec fn in_bounds(data: Seq<u8>, e: EntryModel) -> bool {
    offset_of(e) + e.length <= data.len()
}

/// The entry's contents: `length` bytes from its offset.
pub open spec fn extract(data: Seq<u8>, e: EntryModel) -> Seq<u8> {
    data.subrange(offset_of(e) as int, (offset_of(e) + e.length) as int)
}

/// What reading a blob gives: each entry's name and contents, in header
/// order; `Format` when the header cannot be parsed, `Truncated` when the
/// blob ends inside the header or inside a file's contents.
pub open spec fn unpack_result(data: Seq<u8>) -> Result<
    Seq<(Seq<char>, Seq<u8>)>,
    ArchiveError,
> {
    match header_start(data) {
        None => Err(ArchiveError::Format),
        Some(h) => if h * (SECTOR_LENGTH as nat) > data.len() {
            Err(ArchiveError::Truncated)
        } else {
            let t = parse_table(data, table_slots(h));
            if exists|i: int| 0 <= i < t.len() && !in_bounds(data, #[trigger] t[i]) {
                Err(ArchiveError::Truncated)
            } else {
                Ok(Seq::new(t.len(), |i: int| (t[i].name, extract(data, t[i]))))
            }
        },
    }
}

/// Sectors that `len` bytes of contents take in the blob.
pub open spec fn sectors_for(len: nat) -> nat {
    ((len + SECTOR_LENGTH - 1) / (SECTOR_LENGTH as int)) as nat
}

/// File contents zero-padded to whole sectors.
pub open spec fn padded(content: Seq<u8>) -> Seq<u8> {
    content + zeros((sectors_for(content.len()) * (SECTOR_LENGTH as nat) - content.len()) as nat)
}

/// The padded contents of the files, one after another.
pub open spec fn payload(contents: Seq<Seq<u8>>) -> Seq<u8>
    decreases contents.len(),
{
    if contents.len() == 0 {
        seq![]
    } else {
        payload(contents.drop_last()) + padded(contents.last())
    }
}

/// The lengths of the files' contents.
pub open spec fn content_lengths(contents: Seq<Seq<u8>>) -> Seq<nat> {
    contents.map_values(|c: Seq<u8>| c.len())
}

/// The blob packed from these names and contents: the header, then the
/// padded contents.
pub open spec fn pack_bytes(names: Seq<Seq<char>>, contents: Seq<Seq<u8>>) -> Seq<u8> {
    header_bytes(layout(names, content_lengths(contents))) + payload(contents)
}

/// The names of files given as (name, contents).
pub open spec fn file_names(files: Seq<(String, Vec<u8>)>) -> Seq<Seq<char>> {
    files.map_values(|f: (String, Vec<u8>)| f.0@)
}

/// The contents of files given as (name, contents).
pub open spec fn input_contents(files: Seq<(String, Vec<u8>)>) -> Seq<Seq<u8>> {
    files.map_values(|f: (String, Vec<u8>)| f.1@)
}

/// Files given as (name, contents), as mathematical values.
pub open spec fn files_view(files: Seq<(String, Vec<u8>)>) -> Seq<(Seq<char>, Seq<u8>)> {
    files.map_values(|f: (String, Vec<u8>)| (f.0@, f.1@))
}

/// The header's length in sectors, read from the blob's first record.
pub fn get_header_length(data: &[u8]) -> (r: Result<usize, ArchiveError>)
    ensures
        match r {
            Ok(h) => header_start(data@) == Some(h as nat) && h <= 0xFFFF,
            Err(e) => e == ArchiveError::Format && header_start(data@) is None,
        },
{
    if data.len() < RECORD_LENGTH {
        return Err(ArchiveError::Format);
    }
    // The first file begins on the sector right after the header, and
    // sectors count from zero: its start is the header's length.
    match FileEntry::parse_file_listing(&data[0..RECORD_LENGTH]) {
        Some(f) => Ok(f.start as usize),
        None => Err(ArchiveError::Format),
    }
}

/// The decoded entries, as mathematical values.
pub open spec fn entries_view(v: Seq<FileEntry>) -> Seq<EntryModel> {
    v.map_values(|e: FileEntry| e@)
}

/// Reads the header table: the first record gives the header's length in
/// sectors, then every whole record of that region is decoded in order and
/// padding slots are left out.
pub fn parse_files_from_header(data: &[u8]) -> (r: Result<Vec<FileEntry>, ArchiveError>)
    ensures
        match r {
            Ok(v) => match header_start(data@) {
                Some(h) => h * (SECTOR_LENGTH as nat) <= data@.len() && entries_view(v@)
                    == parse_table(data@, table_slots(h)),
                None => false,
            },
            Err(ArchiveError::Format) => header_start(data@) is None,
            Err(ArchiveError::Truncated) => match header_start(data@) {
                Some(h) => h * (SECTOR_LENGTH as nat) > data@.len(),
                None => false,
            },
            Err(_) => false,
        },
{
    let h = match get_header_length(data) {
        Ok(h) => h,
        Err(e) => return Err(e),
    };
    let header_len = h * SECTOR_LENGTH;
    if header_len > data.len() {
        return Err(ArchiveError::Truncated);
    }
    // The header is padded to a sector boundary, so the trailing slots are
    // zero and decode to nothing.
    let slots = header_len / RECORD_LENGTH;
    assert(data@.len() == data.len());
    assert(slots * RECORD_LENGTH <= header_len) by (nonlinear_arith)
        requires
            slots == header_len / RECORD_LENGTH,
    ;
    let mut files: Vec<FileEntry> = Vec::new();
    let mut k: usize = 0;
    while k < slots
        invariant
            slots == table_slots(h as nat),
            slots * RECORD_LENGTH <= data@.len(),
            data@.len() <= usize::MAX,
            k <= slots,
            entries_view(files@) == parse_table(data@, k as nat),
        decreases slots - k,
    {
        assert(k * RECORD_LENGTH + RECORD_LENGTH <= slots * RECORD_LENGTH) by (nonlinear_arith)
            requires
                k < slots,
        ;
        let chunk = &data[k * RECORD_LENGTH..k * RECORD_LENGTH + RECORD_LENGTH];
        let ghost before = files@;
        match FileEntry::parse_file_listing(chunk) {
            Some(e) => {
                files.push(e);
                assert(entries_view(files@) =~= entries_view(before).push(e@));
            },
            None => {},
        }
        k = k + 1;
    }
    Ok(files)
}

/// The contents of one file: `length` bytes from sector `start`.
pub fn file_contents(data: &[u8], entry: &FileEntry) -> (r: Result<Vec<u8>, ArchiveError>)
    ensures
        match r {
            Ok(c) => in_bounds(data@, entry@) && c@ == extract(data@, entry@),
            Err(e) => e == ArchiveError::Truncated && !in_bounds(data@, entry@),
        },
{
    let offset = entry.start as usize * SECTOR_LENGTH;
    let length = entry.length as usize;
    if length > data.len() || offset > data.len() - length {
        return Err(ArchiveError::Truncated);
    }
    Ok(vstd::slice::slice_to_vec(&data[offset..offset + length]))
}

/// Reads every file out of a blob, as (name, contents) in header order.
pub fn unpack(data: &[u8]) -> (r: Result<Vec<(String, Vec<u8>)>, ArchiveError>)
    ensures
        match r {
            Ok(v) => unpack_result(data@) == Ok::<_, ArchiveError>(files_view(v@)),
            Err(e) => unpack_result(data@) == Err::<Seq<(Seq<char>, Seq<u8>)>, _>(e),
        },
{
    let entries = match parse_files_from_header(data) {
        Ok(v) => v,
        Err(e) => return Err(e),
    };
    let ghost t = entries_view(entries@);
    let mut out: Vec<(String, Vec<u8>)> = Vec::new();
    let mut i: usize = 0;
    while i < entries.len()
        invariant
            t == entries_view(entries@),
            match header_start(data@) {
                Some(h) => h * (SECTOR_LENGTH as nat) <= data@.len() && t == parse_table(
                    data@,
                    table_slots(h),
                ),
                None => false,
            },
            i <= t.len(),
            forall|j: int| 0 <= j < i ==> in_bounds(data@, #[trigger] t[j]),
            files_view(out@) == Seq::new(i as nat, |j: int| (t[j].name, extract(data@, t[j]))),
        decreases t.len() - i,
    {
        let contents = match file_contents(data, &entries[i]) {
            Ok(c) => c,
            Err(e) => {
                assert(!in_bounds(data@, t[i as int]));
                return Err(e);
            },
        };
        let ghost before = out@;
        out.push((entries[i].name.clone(), contents));
        assert(files_view(out@) =~= Seq::new(
            (i + 1) as nat,
            |j: int| (t[j].name, extract(data@, t[j])),
        )) by {
            assert(files_view(out@) =~= files_view(before).push((t[i as int].name, extract(data@, t[i as int]))));
        }
        i = i + 1;
    }
    assert(files_view(out@) =~= Seq::new(t.len(), |j: int| (t[j].name, extract(data@, t[j]))));
    Ok(out)
}

/// Padded contents take whole sectors, at least as many bytes as the
/// contents and less than a sector more, and never more sectors than the
/// `end` field of an entry that holds them.
pub proof fn lemma_sectors_for(start: nat, len: nat)
    ensures
        sectors_for(len) * (SECTOR_LENGTH as nat) >= len,
        sectors_for(len) * (SECTOR_LENGTH as nat) < len + SECTOR_LENGTH,
        sectors_for(len) <= end_sector(start, len),
        len % (SECTOR_LENGTH as nat) == 0 ==> sectors_for(len) * (SECTOR_LENGTH as nat) == len,
        len % (SECTOR_LENGTH as nat) != 0 ==> sectors_for(len) * (SECTOR_LENGTH as nat) == len
            + SECTOR_LENGTH - len % (SECTOR_LENGTH as nat),
{
    let q = len / 2048;
    let r = len % 2048;
    assert(len == q * 2048 + r && 0 <= r < 2048) by (nonlinear_arith)
        requires
            q == len / 2048,
            r == len % 2048,
    ;
    if r == 0 {
        assert(sectors_for(len) == q) by (nonlinear_arith)
            requires
                len == q * 2048,
                sectors_for(len) == (len + 2047) / 2048,
        ;
    } else {
        assert(sectors_for(len) == q + 1) by (nonlinear_arith)
            requires
                len == q * 2048 + r,
                0 < r < 2048,
                sectors_for(len) == (len + 2047) / 2048,
        ;
    }
    assert((start + len) / 2048 >= q) by (nonlinear_arith)
        requires
            len == q * 2048 + r,
            0 <= r,
    ;
}

/// Appends file contents zero-padded to whole sectors; never a byte of
/// anything else follows the contents inside their last sector.
pub fn append_padded(out: &mut Vec<u8>, content: &[u8])
    requires
        old(out)@.len() + content@.len() + SECTOR_LENGTH <= usize::MAX,
    ensures
        final(out)@ == old(out)@ + padded(content@),
        (final(out)@.len() - old(out)@.len()) % (SECTOR_LENGTH as int) == 0,
        final(out)@.len() - old(out)@.len() >= content@.len(),
{
    proof {
        lemma_sectors_for(0, content@.len());
    }
    let ghost start = out@;
    let mut i: usize = 0;
    while i < content.len()
        invariant
            i <= content@.len(),
            out@ == start + content@.subrange(0, i as int),
        decreases content@.len() - i,
    {
        out.push(content[i]);
        i = i + 1;
        assert(out@ =~= start + content@.subrange(0, i as int));
    }
    let rem = content.len() % SECTOR_LENGTH;
    if rem != 0 {
        push_zeros(out, SECTOR_LENGTH - rem);
    } else {
        push_zeros(out, 0);
    }
    assert(out@ =~= start + padded(content@));
    assert(padded(content@).len() == sectors_for(content@.len()) * (SECTOR_LENGTH as nat));
    assert((sectors_for(content@.len()) * (SECTOR_LENGTH as nat)) % (SECTOR_LENGTH as nat) == 0)
        by (nonlinear_arith);
}

/// Packs files, given as (name, contents) in packing order: the header
/// table, then each file's contents padded to whole sectors.
pub fn pack(files: &Vec<(String, Vec<u8>)>) -> (r: Result<Vec<u8>, ArchiveError>)
    ensures
        match r {
            Ok(blob) => {
                &&& names_valid(file_names(files@))
                &&& layout_fits(content_lengths(input_contents(files@)))
                &&& blob@ == pack_bytes(file_names(files@), input_contents(files@))
                &&& blob@.len() % (SECTOR_LENGTH as nat) == 0
            },
            Err(ArchiveError::InvalidName) => !names_valid(file_names(files@)),
            Err(ArchiveError::TooLarge) => names_valid(file_names(files@)) && !layout_fits(
                content_lengths(input_contents(files@)),
            ),
            Err(_) => false,
        },
{
    let ghost names = file_names(files@);
    let ghost contents = input_contents(files@);
    let ghost lengths = content_lengths(contents);
    let n = files.len();
    let mut sizes: Vec<(String, u64)> = Vec::new();
    let mut i: usize = 0;
    while i < n
        invariant
            n == files@.len(),
            names == file_names(files@),
            contents == input_contents(files@),
            lengths == content_lengths(contents),
            i <= n,
            input_names(sizes@) == names.take(i as int),
            input_lengths(sizes@) == lengths.take(i as int),
        decreases n - i,
    {
        let ghost before = sizes@;
        sizes.push((files[i].0.clone(), files[i].1.len() as u64));
        assert(input_names(sizes@) =~= names.take(i + 1)) by {
            assert(input_names(sizes@) =~= input_names(before).push(files@[i as int].0@));
        }
        assert(input_lengths(sizes@) =~= lengths.take(i + 1)) by {
            assert(input_lengths(sizes@) =~= input_lengths(before).push(files@[i as int].1@.len()));
        }
        i = i + 1;
    }
    assert(names.take(n as int) =~= names);
    assert(lengths.take(n as int) =~= lengths);
    let list = match FileList::build(&sizes) {
        Ok(list) => list,
        Err(e) => return Err(e),
    };
    let ghost table = layout(names, lengths);
    let mut blob = list.serialize();
    assert(header_sectors(n as nat) == start_of(lengths, 0));
    let mut i: usize = 0;
    while i < n
        invariant
            n == files@.len(),
            contents == input_contents(files@),
            lengths == content_lengths(contents),
            layout_fits(lengths),
            i <= n,
            blob@ == header_bytes(table) + payload(contents.take(i as int)),
            blob@.len() <= start_of(lengths, i as nat) * (SECTOR_LENGTH as nat),
            blob@.len() % (SECTOR_LENGTH as nat) == 0,
            i < n ==> start_of(lengths, i as nat) <= 0xFFFF,
        decreases n - i,
    {
        proof {
            assert(crate::entry::entry_fits(lengths, i as int));
            assert(lengths[i as int] == contents[i as int].len());
            lemma_sectors_for(start_of(lengths, i as nat), lengths[i as int]);
            assert(contents.take(i + 1).drop_last() =~= contents.take(i as int));
            assert(contents.take(i + 1).last() == contents[i as int]);
            if i + 1 < n {
                assert(crate::entry::entry_fits(lengths, i + 1));
            }
        }
        append_padded(&mut blob, files[i].1.as_slice());
        i = i + 1;
    }
    assert(contents.take(n as int) =~= contents);
    Ok(blob)
}

/// Where the header places each file is where the payload puts it: every
/// file but the last advances the start by exactly the sectors it takes.
pub open spec fn placement_matches(lengths: Seq<nat>) -> bool {
    forall|i: int|
        0 <= i && i + 1 < lengths.len() ==> #[trigger] end_sector(start_of(lengths, i as nat), lengths[i])
            == sectors_for(lengths[i])
}

/// File `i`'s contents stand in the payload right after the padded contents
/// of the files before it, and the payload reaches past them.
pub proof fn lemma_payload(contents: Seq<Seq<u8>>, i: int)
    requires
        0 <= i < contents.len(),
    ensures
        ({
            let off = payload(contents.take(i)).len();
            &&& payload(contents.take(i + 1)).len() == off + sectors_for(contents[i].len())
                * (SECTOR_LENGTH as nat)
            &&& off + contents[i].len() <= payload(contents).len()
            &&& payload(contents).subrange(off as int, (off + contents[i].len()) as int) == contents[i]
        }),
    decreases contents.len(),
{
    let n = contents.len();
    let init = contents.drop_last();
    assert(contents.take(i + 1).drop_last() =~= contents.take(i));
    assert(contents.take(i + 1).last() == contents[i]);
    lemma_sectors_for(0, contents[i].len());
    if i + 1 < n {
        lemma_payload(init, i);
        assert(init.take(i) =~= contents.take(i));
        assert(init.take(i + 1) =~= contents.take(i + 1));
        assert(init[i] == contents[i]);
        let off = payload(contents.take(i)).len();
        assert(payload(contents).subrange(off as int, (off + contents[i].len()) as int) =~= payload(
            init,
        ).subrange(off as int, (off + contents[i].len()) as int));
    } else {
        assert(init =~= contents.take(i));
        let off = payload(contents.take(i)).len();
        assert(payload(contents).subrange(off as int, (off + contents[i].len()) as int) =~= contents[i]);
    }
}

/// With matching placement, file `i` starts at the header's length plus the
/// padded contents of the files before it.
pub proof fn lemma_offsets(contents: Seq<Seq<u8>>, header_len: nat, i: nat)
    requires
        i < contents.len(),
        placement_matches(content_lengths(contents)),
        header_len == start_of(content_lengths(contents), 0) * (SECTOR_LENGTH as nat),
    ensures
        start_of(content_lengths(contents), i) * (SECTOR_LENGTH as nat) == header_len + payload(
            contents.take(i as int),
        ).len(),
    decreases i,
{
    let lengths = content_lengths(contents);
    if i == 0 {
        assert(contents.take(0) =~= Seq::<Seq<u8>>::empty());
    } else {
        let k = (i - 1) as nat;
        lemma_offsets(contents, header_len, k);
        lemma_payload(contents, k as int);
        assert(end_sector(start_of(lengths, k), lengths[k as int]) == sectors_for(lengths[k as int]));
        assert(lengths[k as int] == contents[k as int].len());
        assert(start_of(lengths, i) == start_of(lengths, k) + sectors_for(lengths[k as int]));
        assert(start_of(lengths, i) * 2048 == start_of(lengths, k) * 2048 + sectors_for(
            lengths[k as int],
        ) * 2048) by (nonlinear_arith)
            requires
                start_of(lengths, i) == start_of(lengths, k) + sectors_for(lengths[k as int]),
        ;
    }
}

/// Reading the table from a blob that begins with the header of `es` gives
/// the entries of `es` among the first `count` slots.
pub proof fn lemma_parse_table(data: Seq<u8>, es: Seq<EntryModel>, count: nat)
    requires
        forall|i: int| 0 <= i < es.len() ==> decode_record(#[trigger] encode_record(es[i])) == Some(es[i]),
        crate::entry::names_fit(es),
        data.len() >= header_bytes(es).len(),
        data.subrange(0, header_bytes(es).len() as int) == header_bytes(es),
        count * RECORD_LENGTH <= header_bytes(es).len(),
    ensures
        parse_table(data, count) == es.take(if count < es.len() { count as int } else { es.len() as int }),
    decreases count,
{
    lemma_encode_records(es);
    let hb = header_bytes(es);
    let n = es.len();
    if count > 0 {
        let k = (count - 1) as nat;
        lemma_parse_table(data, es, k);
        let chunk = data.subrange(k * RECORD_LENGTH, k * RECORD_LENGTH + RECORD_LENGTH);
        assert(chunk =~= hb.subrange(k * RECORD_LENGTH, k * RECORD_LENGTH + RECORD_LENGTH));
        if k < n {
            assert(encode_records(es).subrange(k * RECORD_LENGTH, k * RECORD_LENGTH + RECORD_LENGTH)
                == encode_record(es[k as int]));
            assert(chunk =~= encode_record(es[k as int]));
            assert(es.take(k as int).push(es[k as int]) =~= es.take(count as int));
        } else {
            assert(k * RECORD_LENGTH >= n * RECORD_LENGTH) by (nonlinear_arith)
                requires
                    k >= n,
            ;
            assert(chunk[0] == hb[k * RECORD_LENGTH]);
            crate::entry::lemma_padding_slot(chunk);
        }
    }
}

/// Reading the header of a packed blob gives back the table it was built
/// from.
pub proof fn lemma_packed_table(names: Seq<Seq<char>>, contents: Seq<Seq<u8>>)
    requires
        names.len() == contents.len(),
        contents.len() >= 1,
        names_valid(names),
        layout_fits(content_lengths(contents)),
    ensures
        ({
            let es = layout(names, content_lengths(contents));
            let data = pack_bytes(names, contents);
            &&& header_start(data) == Some(es[0].start)
            &&& es[0].start * (SECTOR_LENGTH as nat) == header_bytes(es).len()
            &&& es[0].start == start_of(content_lengths(contents), 0)
            &&& parse_table(data, table_slots(es[0].start)) == es
        }),
{
    let lengths = content_lengths(contents);
    let es = layout(names, lengths);
    let hb = header_bytes(es);
    let data = pack_bytes(names, contents);
    let n = contents.len();
    lemma_header_self_describing(names, lengths);
    lemma_names_fit(names, lengths);
    lemma_encode_records(es);
    assert(data.subrange(0, 24) =~= hb.subrange(0, 24));
    let h = es[0].start;
    assert(data.subrange(0, hb.len() as int) =~= hb);
    assert forall|i: int| 0 <= i < es.len() implies decode_record(#[trigger] encode_record(es[i]))
        == Some(es[i]) by {
        assert(entry_fits(lengths, i));
        assert(valid_name(names[i]));
        lemma_decode_encode(es[i]);
    }
    let slots = table_slots(h);
    assert(hb.len() >= n * 24 + 1);
    assert(slots * 24 <= hb.len() && slots >= n) by (nonlinear_arith)
        requires
            slots == (h * 2048) / 24,
            h * 2048 == hb.len(),
            hb.len() >= n * 24 + 1,
    ;
    lemma_parse_table(data, es, slots);
    assert(es.take(n as int) =~= es);
}

/// Unpacking a packed blob gives back every file's name and contents, in
/// order. This holds when there is at least one file, every name fits a
/// record, every number fits its field, and the header places each file
/// where the payload puts it. Otherwise it can fail: a file followed by
/// another whose `end` is larger than the sectors it takes (an empty file,
/// one whose length is a multiple of 2048, or one whose start and length
/// together cross one more sector boundary than its length alone) moves
/// every later start past the place where its contents stand.
#[verifier::rlimit(40)]
pub proof fn lemma_round_trip(names: Seq<Seq<char>>, contents: Seq<Seq<u8>>)
    requires
        names.len() == contents.len(),
        contents.len() >= 1,
        names_valid(names),
        layout_fits(content_lengths(contents)),
        placement_matches(content_lengths(contents)),
    ensures
        unpack_result(pack_bytes(names, contents)) == Ok::<_, ArchiveError>(
            Seq::new(contents.len(), |i: int| (names[i], contents[i])),
        ),
{
    let lengths = content_lengths(contents);
    let es = layout(names, lengths);
    let hb = header_bytes(es);
    let pl = payload(contents);
    let data = pack_bytes(names, contents);
    let n = contents.len();
    lemma_packed_table(names, contents);
    let t = parse_table(data, table_slots(es[0].start));
    assert forall|i: int| 0 <= i < n implies in_bounds(data, #[trigger] t[i]) && extract(data, t[i])
        == contents[i] by {
        lemma_offsets(contents, hb.len(), i as nat);
        lemma_payload(contents, i);
        let off = payload(contents.take(i)).len();
        assert(t[i] == es[i]);
        assert(offset_of(t[i]) == hb.len() + off);
        assert(t[i].length == contents[i].len());
        assert(extract(data, t[i]) =~= pl.subrange(off as int, (off + contents[i].len()) as int));
    }
    assert(Seq::new(t.len(), |i: int| (t[i].name, extract(data, t[i]))) =~= Seq::new(
        contents.len(),
        |i: int| (names[i], contents[i]),
    ));
}

/// Packing is deterministic: files with the same names and contents, in the
/// same order, give byte-identical blobs.
pub proof fn lemma_pack_deterministic(a: Seq<(String, Vec<u8>)>, b: Seq<(String, Vec<u8>)>)
    requires
        files_view(a) == files_view(b),
    ensures
        pack_bytes(file_names(a), input_contents(a)) == pack_bytes(file_names(b), input_contents(b)),
{
    assert(a.len() == files_view(a).len() && b.len() == files_view(b).len());
    assert(file_names(a) =~= file_names(b)) by {
        assert forall|i: int| 0 <= i < a.len() implies file_names(a)[i] == file_names(b)[i] by {
            assert(files_view(a)[i] == files_view(b)[i]);
        }
    }
    assert(input_contents(a) =~= input_contents(b)) by {
        assert forall|i: int| 0 <= i < a.len() implies input_contents(a)[i] == input_contents(b)[i] by {
            assert(files_view(a)[i] == files_view(b)[i]);
        }
    }
}

} // verus!
