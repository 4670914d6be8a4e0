//! The value region of a partition file: a key directory followed by value
//! blocks.
//!
//! On the wire the region is, in order: a sixteen-byte big-endian entry
//! count; the directory, one record per entry holding a sixteen-byte
//! big-endian name length and the name's UTF-8 bytes; then one value block
//! per entry, in directory order, each a sixteen-byte big-endian length
//! followed by exactly that many payload bytes.  The region is
//! self-describing: the directory can be reconstructed from the bytes alone,
//! and decoding is strict, consuming every byte to the end of the region.
//!
//! The spec functions here pin the byte form exactly; encoding and decoding
//! are proved to be mutual inverses.

use crate::wire::be_bytes;
use crate::wire::be_val;
use crate::wire::lemma_be_bytes_be_val;
use crate::wire::lemma_be_bytes_len;
use crate::wire::lemma_be_val_be_bytes;
use crate::wire::lemma_be_val_bound;
use crate::wire::lemma_pow256_16;
use crate::wire::pow256;
use crate::wire::read_u128_be;
use crate::wire::utf8_to_string;
use crate::wire::write_u128_be;
use crate::DatabaseError;
use vstd::prelude::*;
use vstd::slice::slice_subrange;
use vstd::slice::slice_to_vec;
use vstd::string::StrSliceExecFns;
use vstd::utf8::decode_utf8;
use vstd::utf8::decode_utf8_encode_utf8;
use vstd::utf8::encode_utf8;
use vstd::utf8::encode_utf8_decode_utf8;
use vstd::utf8::encode_utf8_valid_utf8;
use vstd::utf8::valid_utf8;

verus! {

/// One key-value pair held by a partition: the entry's name and its value
/// bytes.
#[derive(Debug, Clone)]
pub struct PartitionEntry {
    /// The name the value is stored under.
    pub name: String,
    /// The value bytes.
    pub data: Vec<u8>,
}

impl View for PartitionEntry {
    type V = (Seq<char>, Seq<u8>);

    open spec fn view(&self) -> (Seq<char>, Seq<u8>) {
        (self.name@, self.data@)
    }
}

/// The mathematical form of a partition's contents: its entries in
/// directory order, each a name and a value.
pub open spec fn entries_view(s: Seq<PartitionEntry>) -> Seq<(Seq<char>, Seq<u8>)> {
    s.map_values(|e: PartitionEntry| e@)
}

/// The names of the entries, in order.
pub open spec fn names_of(entries: Seq<(Seq<char>, Seq<u8>)>) -> Seq<Seq<char>> {
    entries.map_values(|e: (Seq<char>, Seq<u8>)| e.0)
}

/// The values of the entries, in order.
pub open spec fn values_of(entries: Seq<(Seq<char>, Seq<u8>)>) -> Seq<Seq<u8>> {
    entries.map_values(|e: (Seq<char>, Seq<u8>)| e.1)
}

/// The directory record of one name: its UTF-8 length, then its UTF-8 bytes.
pub open spec fn name_record(name: Seq<char>) -> Seq<u8> {
    be_bytes(encode_utf8(name).len() as int, 16) + encode_utf8(name)
}

/// The directory: the records of the names, in order.
pub open spec fn directory_enc(names: Seq<Seq<char>>) -> Seq<u8>
    decreases names.len(),
{
    if names.len() == 0 {
        Seq::empty()
    } else {
        name_record(names.first()) + directory_enc(names.drop_first())
    }
}

/// The block of one value: its length, then its payload bytes.
pub open spec fn block_record(value: Seq<u8>) -> Seq<u8> {
    be_bytes(value.len() as int, 16) + value
}

/// The value blocks, in directory order.
pub open spec fn blocks_enc(values: Seq<Seq<u8>>) -> Seq<u8>
    decreases values.len(),
{
    if values.len() == 0 {
        Seq::empty()
    } else {
        block_record(values.first()) + blocks_enc(values.drop_first())
    }
}

/// The whole value region: count, directory, blocks.
pub open spec fn region_enc(entries: Seq<(Seq<char>, Seq<u8>)>) -> Seq<u8> {
    be_bytes(entries.len() as int, 16) + directory_enc(names_of(entries)) + blocks_enc(
        values_of(entries),
    )
}

/// Every length the region stores in a sixteen-byte field indeed fits in
/// sixteen bytes.  Anything a machine can hold satisfies this; it is what
/// makes the stored lengths faithful.
pub open spec fn region_sizes_fit(entries: Seq<(Seq<char>, Seq<u8>)>) -> bool {
    &&& entries.len() < pow256(16)
    &&& forall|i: int|
        0 <= i < entries.len() ==> encode_utf8(#[trigger] entries[i].0).len() < pow256(16)
    &&& forall|i: int| 0 <= i < entries.len() ==> (#[trigger] entries[i].1).len() < pow256(16)
}

/// What parsing `n` directory records from the head of `data` yields: the
/// names and the count of bytes they occupied, or the error.  A record whose
/// name bytes are not valid UTF-8 is corrupt, judged like a short read.
pub open spec fn directory_parse(data: Seq<u8>, n: nat) -> Result<
    (Seq<Seq<char>>, int),
    DatabaseError,
>
    decreases n,
{
    if n == 0 {
        Ok((Seq::empty(), 0))
    } else if data.len() < 16 {
        Err(DatabaseError::TruncatedHeader)
    } else {
        let len = be_val(data.take(16));
        if data.len() < 16 + len {
            Err(DatabaseError::TruncatedHeader)
        } else {
            let bytes = data.subrange(16, 16 + len);
            if !valid_utf8(bytes) {
                Err(DatabaseError::TruncatedHeader)
            } else {
                match directory_parse(data.skip(16 + len), (n - 1) as nat) {
                    Ok(r) => Ok((seq![decode_utf8(bytes)] + r.0, 16 + len + r.1)),
                    Err(e) => Err(e),
                }
            }
        }
    }
}

/// What parsing `n` value blocks from the head of `data` yields: the values
/// and the count of bytes they occupied, or the error.
pub open spec fn blocks_parse(data: Seq<u8>, n: nat) -> Result<(Seq<Seq<u8>>, int), DatabaseError>
    decreases n,
{
    if n == 0 {
        Ok((Seq::empty(), 0))
    } else if data.len() < 16 {
        Err(DatabaseError::TruncatedHeader)
    } else {
        let len = be_val(data.take(16));
        if data.len() < 16 + len {
            Err(DatabaseError::TruncatedHeader)
        } else {
            match blocks_parse(data.skip(16 + len), (n - 1) as nat) {
                Ok(r) => Ok((seq![data.subrange(16, 16 + len)] + r.0, 16 + len + r.1)),
                Err(e) => Err(e),
            }
        }
    }
}

/// Names and values of equal count, paired up in order.
pub open spec fn zip_entries(names: Seq<Seq<char>>, values: Seq<Seq<u8>>) -> Seq<
    (Seq<char>, Seq<u8>),
> {
    Seq::new(names.len(), |i: int| (names[i], values[i]))
}

/// What decoding a whole value region yields.  Decoding is strict: the
/// count, the directory and the blocks must account for every byte.
pub open spec fn region_parse(data: Seq<u8>) -> Result<Seq<(Seq<char>, Seq<u8>)>, DatabaseError> {
    if data.len() < 16 {
        Err(DatabaseError::TruncatedHeader)
    } else {
        let n = be_val(data.take(16));
        match directory_parse(data.skip(16), n as nat) {
            Ok(d) => match blocks_parse(data.skip(16).skip(d.1), n as nat) {
                Ok(b) => if 16 + d.1 + b.1 == data.len() {
                    Ok(zip_entries(d.0, b.0))
                } else {
                    Err(DatabaseError::TruncatedHeader)
                },
                Err(e) => Err(e),
            },
            Err(e) => Err(e),
        }
    }
}

/// The directory of a concatenation is the concatenation of the
/// directories.
pub proof fn lemma_directory_enc_concat(a: Seq<Seq<char>>, b: Seq<Seq<char>>)
    ensures
        directory_enc(a + b) == directory_enc(a) + directory_enc(b),
    decreases a.len(),
{
    if a.len() == 0 {
        assert(a + b =~= b);
        assert(directory_enc(a) + directory_enc(b) =~= directory_enc(b));
    } else {
        assert((a + b).drop_first() =~= a.drop_first() + b);
        lemma_directory_enc_concat(a.drop_first(), b);
        assert(directory_enc(a + b) =~= directory_enc(a) + directory_enc(b));
    }
}

/// The blocks of a concatenation are the concatenation of the blocks.
pub proof fn lemma_blocks_enc_concat(a: Seq<Seq<u8>>, b: Seq<Seq<u8>>)
    ensures
        blocks_enc(a + b) == blocks_enc(a) + blocks_enc(b),
    decreases a.len(),
{
    if a.len() == 0 {
        assert(a + b =~= b);
        assert(blocks_enc(a) + blocks_enc(b) =~= blocks_enc(b));
    } else {
        assert((a + b).drop_first() =~= a.drop_first() + b);
        lemma_blocks_enc_concat(a.drop_first(), b);
        assert(blocks_enc(a + b) =~= blocks_enc(a) + blocks_enc(b));
    }
}

/// Parsing an encoded directory from the head of any byte string yields the
/// names it was built from and consumes exactly the directory's bytes.
pub proof fn lemma_directory_parse_of_enc(names: Seq<Seq<char>>, rest: Seq<u8>)
    requires
        forall|i: int| 0 <= i < names.len() ==> encode_utf8(#[trigger] names[i]).len() < pow256(16),
    ensures
        directory_parse(directory_enc(names) + rest, names.len()) == Ok::<
            (Seq<Seq<char>>, int),
            DatabaseError,
        >((names, directory_enc(names).len() as int)),
    decreases names.len(),
{
    if names.len() == 0 {
        assert(directory_enc(names) + rest =~= rest);
        assert(names =~= Seq::<Seq<char>>::empty());
    } else {
        let first = names.first();
        let nb = encode_utf8(first);
        let l = nb.len() as int;
        let record = name_record(first);
        let tail_enc = directory_enc(names.drop_first());
        let data = directory_enc(names) + rest;
        lemma_be_bytes_len(l, 16);
        assert(record.len() == 16 + l);
        assert(data =~= record + (tail_enc + rest));
        assert(data.take(16) =~= be_bytes(l, 16));
        lemma_pow256_16();
        lemma_be_val_be_bytes(l, 16);
        assert(be_val(data.take(16)) == l);
        assert(data.len() >= 16 + l);
        assert(data.subrange(16, 16 + l) =~= nb);
        encode_utf8_valid_utf8(first);
        encode_utf8_decode_utf8(first);
        assert(data.skip(16 + l) =~= tail_enc + rest);
        lemma_directory_parse_of_enc(names.drop_first(), rest);
        assert(seq![decode_utf8(nb)] + names.drop_first() =~= names);
    }
}

/// Parsing encoded blocks from the head of any byte string yields the values
/// they were built from and consumes exactly the blocks' bytes.
pub proof fn lemma_blocks_parse_of_enc(values: Seq<Seq<u8>>, rest: Seq<u8>)
    requires
        forall|i: int| 0 <= i < values.len() ==> (#[trigger] values[i]).len() < pow256(16),
    ensures
        blocks_parse(blocks_enc(values) + rest, values.len()) == Ok::<
            (Seq<Seq<u8>>, int),
            DatabaseError,
        >((values, blocks_enc(values).len() as int)),
    decreases values.len(),
{
    if values.len() == 0 {
        assert(blocks_enc(values) + rest =~= rest);
        assert(values =~= Seq::<Seq<u8>>::empty());
    } else {
        let first = values.first();
        let l = first.len() as int;
        let record = block_record(first);
        let tail_enc = blocks_enc(values.drop_first());
        let data = blocks_enc(values) + rest;
        lemma_be_bytes_len(l, 16);
        assert(record.len() == 16 + l);
        assert(data =~= record + (tail_enc + rest));
        assert(data.take(16) =~= be_bytes(l, 16));
        lemma_pow256_16();
        lemma_be_val_be_bytes(l, 16);
        assert(be_val(data.take(16)) == l);
        assert(data.len() >= 16 + l);
        assert(data.subrange(16, 16 + l) =~= first);
        assert(data.skip(16 + l) =~= tail_enc + rest);
        lemma_blocks_parse_of_enc(values.drop_first(), rest);
        assert(seq![first] + values.drop_first() =~= values);
    }
}

/// Decoding is canonical: the names a directory parse yields encode back to
/// exactly the bytes the parse consumed.
pub proof fn lemma_directory_enc_of_parse(data: Seq<u8>, n: nat, names: Seq<Seq<char>>, c: int)
    requires
        directory_parse(data, n) == Ok::<(Seq<Seq<char>>, int), DatabaseError>((names, c)),
    ensures
        names.len() == n,
        0 <= c <= data.len(),
        directory_enc(names) == data.take(c),
        forall|i: int| 0 <= i < names.len() ==> encode_utf8(#[trigger] names[i]).len() < pow256(16),
    decreases n,
{
    if n == 0 {
        assert(directory_enc(names) =~= data.take(0));
    } else {
        let t = data.take(16);
        let l = be_val(t);
        lemma_be_val_bound(t);
        let bytes = data.subrange(16, 16 + l);
        let tail = data.skip(16 + l);
        let r = directory_parse(tail, (n - 1) as nat);
        match r {
            Ok(rr) => {
                let rest_names = rr.0;
                let c2 = rr.1;
                lemma_directory_enc_of_parse(tail, (n - 1) as nat, rest_names, c2);
                assert(names =~= seq![decode_utf8(bytes)] + rest_names);
                assert(names.first() == decode_utf8(bytes));
                assert(names.drop_first() =~= rest_names);
                decode_utf8_encode_utf8(bytes);
                lemma_be_bytes_be_val(t);
                assert(name_record(decode_utf8(bytes)) =~= t + bytes);
                assert(directory_enc(names) == name_record(names.first()) + directory_enc(
                    rest_names,
                ));
                assert(directory_enc(rest_names) == tail.take(c2));
                assert(directory_enc(names) =~= data.take(c));
            },
            Err(_) => {
                assert(false);
            },
        }
    }
}

/// Decoding is canonical: the values a block parse yields encode back to
/// exactly the bytes the parse consumed.
pub proof fn lemma_blocks_enc_of_parse(data: Seq<u8>, n: nat, values: Seq<Seq<u8>>, c: int)
    requires
        blocks_parse(data, n) == Ok::<(Seq<Seq<u8>>, int), DatabaseError>((values, c)),
    ensures
        values.len() == n,
        0 <= c <= data.len(),
        blocks_enc(values) == data.take(c),
        forall|i: int| 0 <= i < values.len() ==> (#[trigger] values[i]).len() < pow256(16),
    decreases n,
{
    if n == 0 {
        assert(blocks_enc(values) =~= data.take(0));
    } else {
        let t = data.take(16);
        let l = be_val(t);
        lemma_be_val_bound(t);
        let bytes = data.subrange(16, 16 + l);
        let tail = data.skip(16 + l);
        let r = blocks_parse(tail, (n - 1) as nat);
        match r {
            Ok(rr) => {
                let rest_values = rr.0;
                let c2 = rr.1;
                lemma_blocks_enc_of_parse(tail, (n - 1) as nat, rest_values, c2);
                assert(values =~= seq![bytes] + rest_values);
                assert(values.first() == bytes);
                assert(values.drop_first() =~= rest_values);
                lemma_be_bytes_be_val(t);
                assert(block_record(bytes) =~= t + bytes);
                assert(blocks_enc(rest_values) == tail.take(c2));
                assert(blocks_enc(values) =~= data.take(c));
            },
            Err(_) => {
                assert(false);
            },
        }
    }
}

/// Decoding is canonical for the whole region: what a successful parse
/// yields encodes back to exactly the input, and its stored lengths fit
/// their fields.
pub proof fn lemma_region_enc_of_parse(data: Seq<u8>, entries: Seq<(Seq<char>, Seq<u8>)>)
    requires
        region_parse(data) == Ok::<Seq<(Seq<char>, Seq<u8>)>, DatabaseError>(entries),
    ensures
        region_enc(entries) == data,
        region_sizes_fit(entries),
{
    let n = be_val(data.take(16));
    lemma_be_val_bound(data.take(16));
    let d = directory_parse(data.skip(16), n as nat);
    match d {
        Ok(dd) => {
            let b = blocks_parse(data.skip(16).skip(dd.1), n as nat);
            match b {
                Ok(bb) => {
                    lemma_directory_enc_of_parse(data.skip(16), n as nat, dd.0, dd.1);
                    lemma_blocks_enc_of_parse(data.skip(16).skip(dd.1), n as nat, bb.0, bb.1);
                    assert(entries =~= zip_entries(dd.0, bb.0));
                    assert(names_of(entries) =~= dd.0);
                    assert(values_of(entries) =~= bb.0);
                    lemma_be_bytes_be_val(data.take(16));
                    assert(directory_enc(dd.0) == data.skip(16).take(dd.1));
                    assert(blocks_enc(bb.0) == data.skip(16).skip(dd.1).take(bb.1));
                    assert(region_enc(entries) =~= data);
                    assert(forall|i: int|
                        0 <= i < entries.len() ==> encode_utf8(#[trigger] entries[i].0).len()
                            < pow256(16));
                    assert(forall|i: int|
                        0 <= i < entries.len() ==> (#[trigger] entries[i].1).len() < pow256(16));
                },
                Err(_) => {
                    assert(false);
                },
            }
        },
        Err(_) => {
            assert(false);
        },
    }
}

/// The names of a sequence of strings, as character sequences.
pub open spec fn strings_view(s: Seq<String>) -> Seq<Seq<char>> {
    s.map_values(|x: String| x@)
}

/// The value bytes of a sequence of entries.
pub open spec fn datas_of_entries(s: Seq<PartitionEntry>) -> Seq<Seq<u8>> {
    s.map_values(|e: PartitionEntry| e.data@)
}



/// A directory parse, resumed behind `names` already parsed over `consumed`
/// bytes: how the whole parse relates to the parse of the remainder.
pub open spec fn dir_glue(
    names: Seq<Seq<char>>,
    consumed: int,
    r: Result<(Seq<Seq<char>>, int), DatabaseError>,
) -> Result<(Seq<Seq<char>>, int), DatabaseError> {
    match r {
        Ok(rr) => Ok((names + rr.0, consumed + rr.1)),
        Err(e) => Err(e),
    }
}

/// A block parse, resumed behind `values` already parsed over `consumed`
/// bytes.
pub open spec fn blk_glue(
    values: Seq<Seq<u8>>,
    consumed: int,
    r: Result<(Seq<Seq<u8>>, int), DatabaseError>,
) -> Result<(Seq<Seq<u8>>, int), DatabaseError> {
    match r {
        Ok(rr) => Ok((values + rr.0, consumed + rr.1)),
        Err(e) => Err(e),
    }
}

proof fn lemma_dir_glue_assoc(
    a: Seq<Seq<char>>,
    ac: int,
    b: Seq<Seq<char>>,
    bc: int,
    r: Result<(Seq<Seq<char>>, int), DatabaseError>,
)
    ensures
        dir_glue(a, ac, dir_glue(b, bc, r)) == dir_glue(a + b, ac + bc, r),
{
    match r {
        Ok(rr) => {
            assert(a + (b + rr.0) =~= (a + b) + rr.0);
        },
        Err(_) => {},
    }
}

proof fn lemma_blk_glue_assoc(
    a: Seq<Seq<u8>>,
    ac: int,
    b: Seq<Seq<u8>>,
    bc: int,
    r: Result<(Seq<Seq<u8>>, int), DatabaseError>,
)
    ensures
        blk_glue(a, ac, blk_glue(b, bc, r)) == blk_glue(a + b, ac + bc, r),
{
    match r {
        Ok(rr) => {
            assert(a + (b + rr.0) =~= (a + b) + rr.0);
        },
        Err(_) => {},
    }
}

/// Decodes a whole value region, as [`region_parse`] says: strict, and
/// canonical by [`lemma_region_enc_of_parse`].
pub fn decode_region(data: &[u8]) -> (r: Result<Vec<PartitionEntry>, DatabaseError>)
    ensures
        match r {
            Ok(v) => region_parse(data@) == Ok::<Seq<(Seq<char>, Seq<u8>)>, DatabaseError>(
                entries_view(v@),
            ),
            Err(e) => region_parse(data@) == Err::<Seq<(Seq<char>, Seq<u8>)>, DatabaseError>(e),
        },
{
    if data.len() < 16 {
        return Err(DatabaseError::TruncatedHeader);
    }
    let n = read_u128_be(data);
    proof {
        assert(data@.subrange(0, 16) =~= data@.take(16));
    }
    let ghost full = directory_parse(data@.skip(16), n as nat);
    let mut pos: usize = 16;
    let mut names: Vec<String> = Vec::new();
    let mut i: u128 = 0;
    proof {
        assert(strings_view(names@) =~= Seq::<Seq<char>>::empty());
        match full {
            Ok(rr) => {
                assert(strings_view(names@) + rr.0 =~= rr.0);
            },
            Err(_) => {},
        }
        assert(full == dir_glue(
            strings_view(names@),
            pos - 16,
            directory_parse(data@.skip(pos as int), (n - i) as nat),
        ));
    }
    while i < n
        invariant
            data@.len() >= 16,
            16 <= pos <= data@.len(),
            0 <= i <= n,
            n as int == be_val(data@.take(16)),
            full == directory_parse(data@.skip(16), n as nat),
            names@.len() == i,
            full == dir_glue(
                strings_view(names@),
                pos - 16,
                directory_parse(data@.skip(pos as int), (n - i) as nat),
            ),
        decreases n - i,
    {
        let ghost old_pos = pos as int;
        let ghost old_names = names@;
        let ghost m = (n - i) as nat;
        let remaining = data.len() - pos;
        if remaining < 16 {
            proof {
                assert(data@.skip(old_pos).len() < 16);
                assert(directory_parse(data@.skip(old_pos), m) == Err::<
                    (Seq<Seq<char>>, int),
                    DatabaseError,
                >(DatabaseError::TruncatedHeader));
            }
            return Err(DatabaseError::TruncatedHeader);
        }
        let len128 = read_u128_be(slice_subrange(data, pos, pos + 16));
        proof {
            assert(data@.subrange(old_pos, old_pos + 16).subrange(0, 16) =~= data@.subrange(
                old_pos,
                old_pos + 16,
            ));
            assert(data@.subrange(old_pos, old_pos + 16) =~= data@.skip(old_pos).take(16));
        }
        if len128 > (remaining - 16) as u128 {
            proof {
                assert(data@.skip(old_pos).len() < 16 + len128 as int);
                assert(directory_parse(data@.skip(old_pos), m) == Err::<
                    (Seq<Seq<char>>, int),
                    DatabaseError,
                >(DatabaseError::TruncatedHeader));
            }
            return Err(DatabaseError::TruncatedHeader);
        }
        let len = len128 as usize;
        let name_bytes = slice_subrange(data, pos + 16, pos + 16 + len);
        proof {
            assert(name_bytes@ =~= data@.skip(old_pos).subrange(16, 16 + len128 as int));
        }
        let s = match utf8_to_string(name_bytes) {
            Some(s) => s,
            None => {
                proof {
                    assert(directory_parse(data@.skip(old_pos), m) == Err::<
                        (Seq<Seq<char>>, int),
                        DatabaseError,
                    >(DatabaseError::TruncatedHeader));
                }
                return Err(DatabaseError::TruncatedHeader);
            },
        };
        names.push(s);
        pos = pos + 16 + len;
        i = i + 1;
        proof {
            let rec = directory_parse(data@.skip(pos as int), (n - i) as nat);
            assert(data@.skip(old_pos).skip(16 + len128 as int) =~= data@.skip(pos as int));
            encode_utf8_decode_utf8(s@);
            assert(decode_utf8(name_bytes@) == s@);
            assert(directory_parse(data@.skip(old_pos), m) == dir_glue(
                seq![s@],
                16 + len128 as int,
                rec,
            ));
            lemma_dir_glue_assoc(strings_view(old_names), old_pos - 16, seq![s@], 16 + len128 as int, rec);
            assert(strings_view(old_names) + seq![s@] =~= strings_view(names@));
        }
    }
    let ghost dnames = strings_view(names@);
    let ghost dconsumed = pos - 16;
    proof {
        let rec = directory_parse(data@.skip(pos as int), (n - i) as nat);
        assert(rec == Ok::<(Seq<Seq<char>>, int), DatabaseError>((Seq::empty(), 0)));
        assert(dnames + Seq::<Seq<char>>::empty() =~= dnames);
        assert(full == Ok::<(Seq<Seq<char>>, int), DatabaseError>((dnames, dconsumed)));
    }
    let n_usize = names.len();
    let ghost pos0 = pos as int;
    let ghost bfull = blocks_parse(data@.skip(pos0), n as nat);
    let mut entries: Vec<PartitionEntry> = Vec::new();
    let mut j: usize = 0;
    proof {
        assert(datas_of_entries(entries@) =~= Seq::<Seq<u8>>::empty());
        match bfull {
            Ok(rr) => {
                assert(datas_of_entries(entries@) + rr.0 =~= rr.0);
            },
            Err(_) => {},
        }
        assert(bfull == blk_glue(
            datas_of_entries(entries@),
            pos - pos0,
            blocks_parse(data@.skip(pos as int), (n_usize - j) as nat),
        ));
    }
    while j < n_usize
        invariant
            data@.len() >= 16,
            16 <= pos0 <= pos <= data@.len(),
            0 <= j <= n_usize,
            n_usize == n,
            names@.len() == n_usize,
            n as int == be_val(data@.take(16)),
            directory_parse(data@.skip(16), n as nat) == Ok::<
                (Seq<Seq<char>>, int),
                DatabaseError,
            >((dnames, dconsumed)),
            pos0 == 16 + dconsumed,
            bfull == blocks_parse(data@.skip(pos0), n as nat),
            entries@.len() == j,
            forall|k: int| 0 <= k < j ==> (#[trigger] entries@[k]).name@ == strings_view(names@)[k],
            bfull == blk_glue(
                datas_of_entries(entries@),
                pos - pos0,
                blocks_parse(data@.skip(pos as int), (n_usize - j) as nat),
            ),
        decreases n_usize - j,
    {
        let ghost old_pos = pos as int;
        let ghost old_entries = entries@;
        let ghost m = (n_usize - j) as nat;
        let remaining = data.len() - pos;
        if remaining < 16 {
            proof {
                assert(blocks_parse(data@.skip(old_pos), m) == Err::<
                    (Seq<Seq<u8>>, int),
                    DatabaseError,
                >(DatabaseError::TruncatedHeader));
                assert(data@.skip(16).skip(dconsumed) =~= data@.skip(pos0));
            }
            return Err(DatabaseError::TruncatedHeader);
        }
        let len128 = read_u128_be(slice_subrange(data, pos, pos + 16));
        proof {
            assert(data@.subrange(old_pos, old_pos + 16).subrange(0, 16) =~= data@.subrange(
                old_pos,
                old_pos + 16,
            ));
            assert(data@.subrange(old_pos, old_pos + 16) =~= data@.skip(old_pos).take(16));
        }
        if len128 > (remaining - 16) as u128 {
            proof {
                assert(data@.skip(old_pos).len() < 16 + len128 as int);
                assert(blocks_parse(data@.skip(old_pos), m) == Err::<
                    (Seq<Seq<u8>>, int),
                    DatabaseError,
                >(DatabaseError::TruncatedHeader));
                assert(data@.skip(16).skip(dconsumed) =~= data@.skip(pos0));
            }
            return Err(DatabaseError::TruncatedHeader);
        }
        let len = len128 as usize;
        let payload = slice_to_vec(slice_subrange(data, pos + 16, pos + 16 + len));
        proof {
            assert(payload@ =~= data@.skip(old_pos).subrange(16, 16 + len128 as int));
        }
        let entry = PartitionEntry { name: names[j].clone(), data: payload };
        entries.push(entry);
        pos = pos + 16 + len;
        j = j + 1;
        proof {
            let rec = blocks_parse(data@.skip(pos as int), (n_usize - j) as nat);
            assert(data@.skip(old_pos).skip(16 + len128 as int) =~= data@.skip(pos as int));
            assert(blocks_parse(data@.skip(old_pos), m) == blk_glue(
                seq![data@.skip(old_pos).subrange(16, 16 + len128 as int)],
                16 + len128 as int,
                rec,
            ));
            lemma_blk_glue_assoc(
                datas_of_entries(old_entries),
                old_pos - pos0,
                seq![data@.skip(old_pos).subrange(16, 16 + len128 as int)],
                16 + len128 as int,
                rec,
            );
            assert(datas_of_entries(old_entries) + seq![
                data@.skip(old_pos).subrange(16, 16 + len128 as int),
            ] =~= datas_of_entries(entries@));
        }
    }
    if pos != data.len() {
        proof {
            let rec = blocks_parse(data@.skip(pos as int), (n_usize - j) as nat);
            assert(rec == Ok::<(Seq<Seq<u8>>, int), DatabaseError>((Seq::empty(), 0)));
            assert(datas_of_entries(entries@) + Seq::<Seq<u8>>::empty() =~= datas_of_entries(
                entries@,
            ));
            assert(bfull == Ok::<(Seq<Seq<u8>>, int), DatabaseError>(
                (datas_of_entries(entries@), pos - pos0),
            ));
            assert(data@.skip(16).skip(dconsumed) =~= data@.skip(pos0));
            assert(16 + dconsumed + (pos - pos0) != data@.len());
        }
        return Err(DatabaseError::TruncatedHeader);
    }
    proof {
        let rec = blocks_parse(data@.skip(pos as int), (n_usize - j) as nat);
        assert(rec == Ok::<(Seq<Seq<u8>>, int), DatabaseError>((Seq::empty(), 0)));
        assert(datas_of_entries(entries@) + Seq::<Seq<u8>>::empty() =~= datas_of_entries(
            entries@,
        ));
        assert(bfull == Ok::<(Seq<Seq<u8>>, int), DatabaseError>(
            (datas_of_entries(entries@), pos - pos0),
        ));
        assert(data@.skip(16).skip(dconsumed) =~= data@.skip(pos0));
        assert(zip_entries(dnames, datas_of_entries(entries@)) =~= entries_view(entries@));
    }
    Ok(entries)
}

/// Encodes a whole value region into its wire bytes, the byte-exact inverse
/// of [`decode_region`].
pub fn encode_region(entries: &Vec<PartitionEntry>) -> (r: Vec<u8>)
    ensures
        r@ == region_enc(entries_view(entries@)),
{
    let ghost ev = entries_view(entries@);
    let n = entries.len();
    let mut out = write_u128_be(n as u128);
    let mut i: usize = 0;
    while i < n
        invariant
            n == entries@.len(),
            ev == entries_view(entries@),
            0 <= i <= n,
            out@ == be_bytes(n as int, 16) + directory_enc(names_of(ev).take(i as int)),
        decreases n - i,
    {
        let nb = entries[i].name.as_str().as_bytes_vec();
        let mut lenb = write_u128_be(nb.len() as u128);
        out.append(&mut lenb);
        let mut nbv = nb;
        out.append(&mut nbv);
        proof {
            let names = names_of(ev);
            let x = names[i as int];
            lemma_directory_enc_concat(names.take(i as int), seq![x]);
            assert(names.take(i + 1) =~= names.take(i as int) + seq![x]);
            assert(seq![x].drop_first() =~= Seq::<Seq<char>>::empty());
            assert(directory_enc(Seq::<Seq<char>>::empty()) == Seq::<u8>::empty());
            assert(seq![x].first() == x);
            assert(directory_enc(seq![x]) == name_record(x) + Seq::<u8>::empty());
            assert(name_record(x) + Seq::<u8>::empty() =~= name_record(x));
            assert(out@ =~= be_bytes(n as int, 16) + directory_enc(names.take(i + 1)));
        }
        i = i + 1;
    }
    proof {
        assert(names_of(ev).take(n as int) =~= names_of(ev));
    }
    let mut i: usize = 0;
    while i < n
        invariant
            n == entries@.len(),
            ev == entries_view(entries@),
            0 <= i <= n,
            out@ == be_bytes(n as int, 16) + directory_enc(names_of(ev)) + blocks_enc(
                values_of(ev).take(i as int),
            ),
        decreases n - i,
    {
        let mut lenb = write_u128_be(entries[i].data.len() as u128);
        out.append(&mut lenb);
        let mut payload = slice_to_vec(entries[i].data.as_slice());
        out.append(&mut payload);
        proof {
            let values = values_of(ev);
            let x = values[i as int];
            lemma_blocks_enc_concat(values.take(i as int), seq![x]);
            assert(values.take(i + 1) =~= values.take(i as int) + seq![x]);
            assert(seq![x].drop_first() =~= Seq::<Seq<u8>>::empty());
            assert(blocks_enc(Seq::<Seq<u8>>::empty()) == Seq::<u8>::empty());
            assert(seq![x].first() == x);
            assert(blocks_enc(seq![x]) == block_record(x) + Seq::<u8>::empty());
            assert(block_record(x) + Seq::<u8>::empty() =~= block_record(x));
            assert(out@ =~= be_bytes(n as int, 16) + directory_enc(names_of(ev)) + blocks_enc(
                values.take(i + 1),
            ));
        }
        i = i + 1;
    }
    proof {
        assert(values_of(ev).take(n as int) =~= values_of(ev));
        assert(out@ =~= region_enc(ev));
    }
    out
}
/// Encoding a value region and decoding it back restores the entries
/// exactly, whatever they hold.
pub proof fn lemma_region_round_trip(entries: Seq<(Seq<char>, Seq<u8>)>)
    requires
        region_sizes_fit(entries),
    ensures
        region_parse(region_enc(entries)) == Ok::<Seq<(Seq<char>, Seq<u8>)>, DatabaseError>(
            entries,
        ),
{
    let n = entries.len() as int;
    let names = names_of(entries);
    let values = values_of(entries);
    let d = directory_enc(names);
    let b = blocks_enc(values);
    let data = region_enc(entries);
    lemma_be_bytes_len(n, 16);
    assert(data.len() == 16 + d.len() + b.len());
    assert(data.take(16) =~= be_bytes(n, 16));
    lemma_pow256_16();
    lemma_be_val_be_bytes(n, 16);
    assert(be_val(data.take(16)) == n);
    assert(data.skip(16) =~= d + b);
    assert(forall|i: int| 0 <= i < names.len() ==> names[i] == entries[i].0);
    assert(forall|i: int| 0 <= i < values.len() ==> values[i] == entries[i].1);
    lemma_directory_parse_of_enc(names, b);
    assert(data.skip(16).skip(d.len() as int) =~= b + Seq::<u8>::empty());
    lemma_blocks_parse_of_enc(values, Seq::empty());
    assert(zip_entries(names, values) =~= entries);
}

} // verus!
