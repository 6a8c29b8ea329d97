//! The record model: a paste record, its optional attached-file metadata,
//! and the raw row shape it takes in the durable table, with the rules that
//! connect the two (file presence, legacy title backfill).

use vstd::prelude::*;
use crate::access::Flags;

verus! {

/// Metadata of a file attached to a record. The raw bytes live elsewhere;
/// only the name and the byte count belong to the record.
#[derive(Debug, PartialEq, Eq)]
pub struct PastaFile {
    pub name: String,
    pub size: u64,
}

impl Clone for PastaFile {
    fn clone(&self) -> (r: Self)
        ensures
            r == *self,
    {
        PastaFile { name: self.name.clone(), size: self.size }
    }
}

/// One paste record.
#[derive(Debug, PartialEq, Eq)]
pub struct Pasta {
    pub id: u64,
    pub title: String,
    pub content: String,
    pub file: Option<PastaFile>,
    pub extension: String,
    pub readonly: bool,
    pub private: bool,
    pub editable: bool,
    pub encrypt_server: bool,
    pub encrypt_client: bool,
    pub encrypted_key: Option<String>,
    pub created: i64,
    pub expiration: i64,
    pub last_read: i64,
    pub read_count: u64,
    pub burn_after_reads: u64,
    pub pasta_type: String,
}

/// One raw row of the durable table. Strings and signed integers only, since
/// that is what the backing table holds; booleans persist as 0/1 integers and
/// unsigned counters as their 64-bit two's-complement image.
#[derive(Debug)]
pub struct Row {
    pub id: i64,
    pub title: Option<String>,
    pub content: String,
    pub file_name: Option<String>,
    pub file_size: Option<i64>,
    pub extension: String,
    pub readonly: bool,
    pub private: bool,
    pub editable: bool,
    pub encrypt_server: bool,
    pub encrypt_client: bool,
    pub encrypted_key: Option<String>,
    pub created: i64,
    pub expiration: i64,
    pub last_read: i64,
    pub read_count: i64,
    pub burn_after_reads: i64,
    pub pasta_type: String,
}

/// The decimal digit characters of `n`, most significant first.
pub open spec fn dec_digits(n: nat) -> Seq<char>
    decreases n,
{
    if n < 10 {
        seq![digit_char(n)]
    } else {
        dec_digits(n / 10).push(digit_char(n % 10))
    }
}

/// The character for one decimal digit value.
pub open spec fn digit_char(d: nat) -> char {
    if d == 0 { '0' }
    else if d == 1 { '1' }
    else if d == 2 { '2' }
    else if d == 3 { '3' }
    else if d == 4 { '4' }
    else if d == 5 { '5' }
    else if d == 6 { '6' }
    else if d == 7 { '7' }
    else if d == 8 { '8' }
    else { '9' }
}

/// The placeholder title synthesized for a legacy row that has none.
pub open spec fn default_title(id: u64) -> Seq<char> {
    "Pasta "@ + dec_digits(id as nat)
}

/// The mathematical image of one raw row: what the durable table logically
/// holds for a record, with text as character sequences.
pub ghost struct RowV {
    pub id: i64,
    pub title: Option<Seq<char>>,
    pub content: Seq<char>,
    pub file_name: Option<Seq<char>>,
    pub file_size: Option<i64>,
    pub extension: Seq<char>,
    pub readonly: bool,
    pub private: bool,
    pub editable: bool,
    pub encrypt_server: bool,
    pub encrypt_client: bool,
    pub encrypted_key: Option<Seq<char>>,
    pub created: i64,
    pub expiration: i64,
    pub last_read: i64,
    pub read_count: i64,
    pub burn_after_reads: i64,
    pub pasta_type: Seq<char>,
}

/// The mathematical image of a raw row value.
pub open spec fn row_view(r: Row) -> RowV {
    RowV {
        id: r.id,
        title: match r.title {
            Some(t) => Some(t@),
            None => None,
        },
        content: r.content@,
        file_name: match r.file_name {
            Some(n) => Some(n@),
            None => None,
        },
        file_size: r.file_size,
        extension: r.extension@,
        readonly: r.readonly,
        private: r.private,
        editable: r.editable,
        encrypt_server: r.encrypt_server,
        encrypt_client: r.encrypt_client,
        encrypted_key: match r.encrypted_key {
            Some(k) => Some(k@),
            None => None,
        },
        created: r.created,
        expiration: r.expiration,
        last_read: r.last_read,
        read_count: r.read_count,
        burn_after_reads: r.burn_after_reads,
        pasta_type: r.pasta_type@,
    }
}

/// The row image a record is written as: the title always present, an absent
/// file stored as an absent name and size, unsigned counters as their 64-bit
/// two's-complement image.
pub open spec fn spec_row_of(p: Pasta) -> RowV {
    RowV {
        id: p.id as i64,
        title: Some(p.title@),
        content: p.content@,
        file_name: match p.file {
            Some(f) => Some(f.name@),
            None => None,
        },
        file_size: match p.file {
            Some(f) => Some(f.size as i64),
            None => None,
        },
        extension: p.extension@,
        readonly: p.readonly,
        private: p.private,
        editable: p.editable,
        encrypt_server: p.encrypt_server,
        encrypt_client: p.encrypt_client,
        encrypted_key: match p.encrypted_key {
            Some(k) => Some(k@),
            None => None,
        },
        created: p.created,
        expiration: p.expiration,
        last_read: p.last_read,
        read_count: p.read_count as i64,
        burn_after_reads: p.burn_after_reads as i64,
        pasta_type: p.pasta_type@,
    }
}

/// Whether a row image carries a real attached file: both the name and the
/// size must be present, the name non-empty and the size positive.
pub open spec fn row_has_file(rv: RowV) -> bool {
    match (rv.file_name, rv.file_size) {
        (Some(n), Some(sz)) => n.len() > 0 && sz > 0,
        _ => false,
    }
}

/// How a record in memory corresponds to a row image of the durable table:
/// the same data, with a missing title backfilled by the generated
/// placeholder and file metadata normalized away unless it names a real file.
pub open spec fn represents_row(rv: RowV, p: Pasta) -> bool {
    &&& rv.id == p.id as i64
    &&& match rv.title {
        Some(t) => p.title@ == t,
        None => p.title@ == default_title(rv.id as u64),
    }
    &&& p.content@ == rv.content
    &&& (p.file is Some <==> row_has_file(rv))
    &&& match p.file {
        Some(f) => {
            &&& rv.file_name matches Some(n) && f.name@ == n
            &&& rv.file_size == Some(f.size as i64)
        },
        None => true,
    }
    &&& p.extension@ == rv.extension
    &&& p.readonly == rv.readonly
    &&& p.private == rv.private
    &&& p.editable == rv.editable
    &&& p.encrypt_server == rv.encrypt_server
    &&& p.encrypt_client == rv.encrypt_client
    &&& match (p.encrypted_key, rv.encrypted_key) {
        (Some(a), Some(b)) => a@ == b,
        (None, None) => true,
        _ => false,
    }
    &&& p.created == rv.created
    &&& p.expiration == rv.expiration
    &&& p.last_read == rv.last_read
    &&& p.read_count == rv.read_count as u64
    &&& p.burn_after_reads == rv.burn_after_reads as u64
    &&& p.pasta_type@ == rv.pasta_type
}

/// A record carries file metadata exactly when the row it stands for names a
/// file: name present and non-empty, size present and positive. Either field
/// missing, an empty name, or a non-positive size all read back as no file.
pub proof fn lemma_file_presence(rv: RowV, p: Pasta)
    requires
        represents_row(rv, p),
    ensures
        p.file is Some <==> row_has_file(rv),
{
}

/// A well-formed record is represented by the row image it is written as.
pub proof fn lemma_row_of_represents(p: Pasta)
    requires
        p.wf(),
    ensures
        represents_row(spec_row_of(p), p),
{
    let a: u64 = p.id;
    let b: u64 = p.read_count;
    let c: u64 = p.burn_after_reads;
    assert((a as i64) as u64 == a) by (bit_vector);
    assert((b as i64) as u64 == b) by (bit_vector);
    assert((c as i64) as u64 == c) by (bit_vector);
    if p.file is Some {
        let f = p.file->0;
        assert(0 < f.size <= i64::MAX as u64);
        assert(f.size as i64 > 0);
    }
}

impl Pasta {
    /// Well-formedness: an attached file, when present, has a non-empty name
    /// and a positive size small enough for the table's signed size column.
    pub open spec fn wf(self) -> bool {
        match self.file {
            Some(f) => f.name@.len() > 0 && 0 < f.size <= i64::MAX as u64,
            None => true,
        }
    }

    /// The record's five access-control flags, as one snapshot.
    pub open spec fn spec_flags(self) -> Flags {
        Flags {
            readonly: self.readonly,
            private: self.private,
            editable: self.editable,
            encrypt_server: self.encrypt_server,
            encrypt_client: self.encrypt_client,
        }
    }

    pub fn flags(&self) -> (r: Flags)
        ensures
            r == self.spec_flags(),
    {
        Flags {
            readonly: self.readonly,
            private: self.private,
            editable: self.editable,
            encrypt_server: self.encrypt_server,
            encrypt_client: self.encrypt_client,
        }
    }

    /// Whether the record has expired at time `now`: a zero expiration means
    /// "never expires".
    pub open spec fn spec_expired(self, now: i64) -> bool {
        self.expiration != 0 && self.expiration <= now
    }

    pub fn is_expired(&self, now: i64) -> (r: bool)
        ensures
            r == self.spec_expired(now),
    {
        self.expiration != 0 && self.expiration <= now
    }
}

impl Clone for Pasta {
    fn clone(&self) -> (r: Self)
        ensures
            r == *self,
    {
        Pasta {
            id: self.id,
            title: self.title.clone(),
            content: self.content.clone(),
            file: match &self.file {
                Some(f) => Some(f.clone()),
                None => None,
            },
            extension: self.extension.clone(),
            readonly: self.readonly,
            private: self.private,
            editable: self.editable,
            encrypt_server: self.encrypt_server,
            encrypt_client: self.encrypt_client,
            encrypted_key: match &self.encrypted_key {
                Some(k) => Some(k.clone()),
                None => None,
            },
            created: self.created,
            expiration: self.expiration,
            last_read: self.last_read,
            read_count: self.read_count,
            burn_after_reads: self.burn_after_reads,
            pasta_type: self.pasta_type.clone(),
        }
    }
}

/// The character for one decimal digit.
fn digit_str(d: u64) -> (r: &'static str)
    requires
        d < 10,
    ensures
        r@ =~= seq![digit_char(d as nat)],
{
    proof {
        reveal_strlit("0");
        reveal_strlit("1");
        reveal_strlit("2");
        reveal_strlit("3");
        reveal_strlit("4");
        reveal_strlit("5");
        reveal_strlit("6");
        reveal_strlit("7");
        reveal_strlit("8");
        reveal_strlit("9");
    }
    if d == 0 { "0" }
    else if d == 1 { "1" }
    else if d == 2 { "2" }
    else if d == 3 { "3" }
    else if d == 4 { "4" }
    else if d == 5 { "5" }
    else if d == 6 { "6" }
    else if d == 7 { "7" }
    else if d == 8 { "8" }
    else { "9" }
}

/// Renders `n` in decimal.
pub fn u64_to_dec(n: u64) -> (s: String)
    ensures
        s@ == dec_digits(n as nat),
{
    let mut ds: Vec<u64> = Vec::new();
    let mut m: u64 = n;
    while m >= 10
        invariant
            forall|i: int| 0 <= i < ds@.len() ==> ds@[i] < 10,
            dec_digits(n as nat) =~= dec_digits(m as nat) + Seq::new(
                ds@.len(),
                |i: int| digit_char(ds@[ds@.len() - 1 - i] as nat),
            ),
        decreases m,
    {
        let d = m % 10;
        m = m / 10;
        ds.push(d);
        proof {
            let tail = Seq::new(ds@.len(), |i: int| digit_char(ds@[ds@.len() - 1 - i] as nat));
            assert(dec_digits(n as nat) =~= dec_digits(m as nat) + tail);
        }
    }
    let mut s = String::new();
    s.append(digit_str(m));
    assert(s@ =~= dec_digits(m as nat));
    let mut k: usize = ds.len();
    while k > 0
        invariant
            k <= ds@.len(),
            forall|i: int| 0 <= i < ds@.len() ==> ds@[i] < 10,
            dec_digits(n as nat) =~= dec_digits(m as nat) + Seq::new(
                ds@.len(),
                |i: int| digit_char(ds@[ds@.len() - 1 - i] as nat),
            ),
            s@ =~= dec_digits(n as nat).subrange(
                0,
                dec_digits(n as nat).len() - k,
            ),
            dec_digits(n as nat).len() == dec_digits(m as nat).len() + ds@.len(),
        decreases k,
    {
        s.append(digit_str(ds[k - 1]));
        k = k - 1;
        proof {
            assert(s@ =~= dec_digits(n as nat).subrange(0, dec_digits(n as nat).len() - k));
        }
    }
    proof {
        assert(s@ =~= dec_digits(n as nat));
    }
    s
}

/// Builds the placeholder title `"Pasta <id>"` for a legacy row.
pub fn make_default_title(id: u64) -> (s: String)
    ensures
        s@ == default_title(id),
{
    let mut s = String::from_str("Pasta ");
    let digits = u64_to_dec(id);
    s.append(digits.as_str());
    s
}

/// Reads one raw row into a record: a missing title is backfilled with the
/// generated placeholder, and file metadata is kept only when both the name
/// is non-empty and the size is positive.
pub fn from_row(r: &Row) -> (p: Pasta)
    ensures
        represents_row(row_view(*r), p),
        p.wf(),
        p.file is None <==> !row_has_file(row_view(*r)),
{
    let id = r.id as u64;
    let title = match &r.title {
        Some(t) => t.clone(),
        None => make_default_title(id),
    };
    let file = match (&r.file_name, &r.file_size) {
        (Some(n), Some(sz)) => {
            if n.unicode_len() > 0 && *sz > 0 {
                Some(PastaFile { name: n.clone(), size: *sz as u64 })
            } else {
                None
            }
        },
        _ => None,
    };
    proof {
        let a: i64 = r.id;
        let b: i64 = r.read_count;
        let c: i64 = r.burn_after_reads;
        assert((a as u64) as i64 == a) by (bit_vector);
        assert((b as u64) as i64 == b) by (bit_vector);
        assert((c as u64) as i64 == c) by (bit_vector);
    }
    Pasta {
        id,
        title,
        content: r.content.clone(),
        file,
        extension: r.extension.clone(),
        readonly: r.readonly,
        private: r.private,
        editable: r.editable,
        encrypt_server: r.encrypt_server,
        encrypt_client: r.encrypt_client,
        encrypted_key: match &r.encrypted_key {
            Some(k) => Some(k.clone()),
            None => None,
        },
        created: r.created,
        expiration: r.expiration,
        last_read: r.last_read,
        read_count: r.read_count as u64,
        burn_after_reads: r.burn_after_reads as u64,
        pasta_type: r.pasta_type.clone(),
    }
}

/// Writes one record as a raw row: the title is always present, and an
/// absent file is stored as an absent name and size.
pub fn to_row(p: &Pasta) -> (r: Row)
    requires
        p.wf(),
    ensures
        row_view(r) == spec_row_of(*p),
{
    proof {
        let a: u64 = p.id;
        let b: u64 = p.read_count;
        let c: u64 = p.burn_after_reads;
        assert((a as i64) as u64 == a) by (bit_vector);
        assert((b as i64) as u64 == b) by (bit_vector);
        assert((c as i64) as u64 == c) by (bit_vector);
    }
    Row {
        id: p.id as i64,
        title: Some(p.title.clone()),
        content: p.content.clone(),
        file_name: match &p.file {
            Some(f) => Some(f.name.clone()),
            None => None,
        },
        file_size: match &p.file {
            Some(f) => Some(f.size as i64),
            None => None,
        },
        extension: p.extension.clone(),
        readonly: p.readonly,
        private: p.private,
        editable: p.editable,
        encrypt_server: p.encrypt_server,
        encrypt_client: p.encrypt_client,
        encrypted_key: match &p.encrypted_key {
            Some(k) => Some(k.clone()),
            None => None,
        },
        created: p.created,
        expiration: p.expiration,
        last_read: p.last_read,
        read_count: p.read_count as i64,
        burn_after_reads: p.burn_after_reads as i64,
        pasta_type: p.pasta_type.clone(),
    }
}

} // verus!
