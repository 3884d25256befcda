use vstd::prelude::*;
use vstd::string::StrSliceExecFns;
use vstd::string::StringExecFns;

verus! {

/// The lowercase hex digit for a nibble (`n < 16`).
pub open spec fn hex_digit(n: u8) -> char {
    if n == 0 {
        '0'
    } else if n == 1 {
        '1'
    } else if n == 2 {
        '2'
    } else if n == 3 {
        '3'
    } else if n == 4 {
        '4'
    } else if n == 5 {
        '5'
    } else if n == 6 {
        '6'
    } else if n == 7 {
        '7'
    } else if n == 8 {
        '8'
    } else if n == 9 {
        '9'
    } else if n == 10 {
        'a'
    } else if n == 11 {
        'b'
    } else if n == 12 {
        'c'
    } else if n == 13 {
        'd'
    } else if n == 14 {
        'e'
    } else {
        'f'
    }
}

/// The lowercase hex rendering of a byte sequence: two digits per
/// byte, high nibble first.
pub open spec fn hex_of(s: Seq<u8>) -> Seq<char>
    decreases s.len(),
{
    if s.len() == 0 {
        Seq::empty()
    } else {
        seq![hex_digit(s[0] / 16), hex_digit(s[0] % 16)] + hex_of(s.drop_first())
    }
}

/// Relies on hex::encode: it renders each input byte as two lowercase
/// hex digits, high nibble first (table "0123456789abcdef").
#[verifier::external_body]
pub(crate) fn hex_encode(b: &Vec<u8>) -> (r: String)
    ensures
        r@ == hex_of(b@),
{
    hex::encode(b)
}

/// The output directory, normalized to end in exactly one separator.
pub open spec fn dir_normalized(dir: Seq<char>) -> Seq<char> {
    if dir.len() > 0 && dir.last() == '/' {
        dir
    } else {
        dir.push('/')
    }
}

/// The file name extension a solution record is written under.
pub open spec fn json_suffix() -> Seq<char> {
    seq!['.', 'j', 's', 'o', 'n']
}

/// The path a solution with digest `hash` is written to, below `dir`.
pub open spec fn path_spec(dir: Seq<char>, hash: Seq<u8>) -> Seq<char> {
    dir_normalized(dir) + hex_of(hash) + json_suffix()
}

/// The puzzle kind. Only counting leading zero bits is supported.
#[derive(PartialEq, Eq, Structural, Clone, Copy, Debug)]
pub enum PuzzleType {
    ZEROS,
}

/// An immutable record of one discovered solution.
#[derive(Clone, Debug)]
pub struct PuzzleSolution {
    pub peer_id: Vec<u8>,
    pub key_block: u64,
    pub signed_context: Vec<u8>,
    pub thread_name: Vec<u8>,
    pub nonce: Vec<u8>,
    pub signed_nonce: Vec<u8>,
    pub hash: Vec<u8>,
    pub difficulty: u32,
}

impl PuzzleSolution {
    pub fn new(
        peer_id: Vec<u8>,
        key_block: u64,
        signed_context: Vec<u8>,
        thread_name: Vec<u8>,
        nonce: Vec<u8>,
        signed_nonce: Vec<u8>,
        hash: Vec<u8>,
        difficulty: u32,
    ) -> (r: PuzzleSolution)
        ensures
            r.peer_id == peer_id,
            r.key_block == key_block,
            r.signed_context == signed_context,
            r.thread_name == thread_name,
            r.nonce == nonce,
            r.signed_nonce == signed_nonce,
            r.hash == hash,
            r.difficulty == difficulty,
    {
        PuzzleSolution {
            peer_id,
            key_block,
            signed_context,
            thread_name,
            nonce,
            signed_nonce,
            hash,
            difficulty,
        }
    }

    /// The path this solution is written to: the directory, exactly one
    /// separator, and the hex digest with the record extension.
    pub fn file_path(&self, out_dir: &str) -> (r: String)
        ensures
            r@ == path_spec(out_dir@, self.hash@),
    {
        let mut s = String::new();
        s.append(out_dir);
        let n = out_dir.unicode_len();
        let needs_sep = if n == 0 {
            true
        } else {
            out_dir.get_char(n - 1) != '/'
        };
        if needs_sep {
            s.append("/");
            proof {
                reveal_strlit("/");
                assert(s@ =~= dir_normalized(out_dir@));
            }
        }
        let hx = hex_encode(&self.hash);
        s.append(hx.as_str());
        s.append(".json");
        proof {
            reveal_strlit(".json");
            assert(".json"@ =~= json_suffix());
            assert(s@ =~= path_spec(out_dir@, self.hash@));
        }
        s
    }
}

/// The hex rendering is twice as long as its input.
pub proof fn lemma_hex_of_len(s: Seq<u8>)
    ensures
        hex_of(s).len() == 2 * s.len(),
    decreases s.len(),
{
    if s.len() > 0 {
        lemma_hex_of_len(s.drop_first());
    }
}

/// Distinct byte sequences have distinct hex renderings.
pub proof fn lemma_hex_of_injective(a: Seq<u8>, b: Seq<u8>)
    requires
        hex_of(a) == hex_of(b),
    ensures
        a == b,
    decreases a.len(),
{
    lemma_hex_of_len(a);
    lemma_hex_of_len(b);
    if a.len() == 0 {
        assert(a =~= b);
    } else {
        assert forall|x: u8, y: u8| x < 16 && y < 16 && #[trigger] hex_digit(x)
            == #[trigger] hex_digit(y) implies x == y by {
        }
        let ha = seq![hex_digit(a[0] / 16), hex_digit(a[0] % 16)] + hex_of(a.drop_first());
        let hb = seq![hex_digit(b[0] / 16), hex_digit(b[0] % 16)] + hex_of(b.drop_first());
        assert(hex_of(a) == ha);
        assert(hex_of(b) == hb);
        assert(ha[0] == hex_digit(a[0] / 16));
        assert(hb[0] == hex_digit(b[0] / 16));
        assert(ha[1] == hex_digit(a[0] % 16));
        assert(hb[1] == hex_digit(b[0] % 16));
        assert(a[0] / 16 == b[0] / 16 && a[0] % 16 == b[0] % 16);
        assert(a[0] == 16 * (a[0] / 16) + a[0] % 16);
        assert(b[0] == 16 * (b[0] / 16) + b[0] % 16);
        assert(hex_of(a.drop_first()) =~= hex_of(a).skip(2));
        assert(hex_of(b.drop_first()) =~= hex_of(b).skip(2));
        lemma_hex_of_injective(a.drop_first(), b.drop_first());
        assert forall|i: int| 0 <= i < a.len() implies a[i] == b[i] by {
            if i >= 1 {
                assert(a[i] == a.drop_first()[i - 1]);
                assert(b[i] == b.drop_first()[i - 1]);
            }
        }
        assert(a =~= b);
    }
}

/// Two solutions with distinct digests are written to distinct paths.
pub proof fn lemma_distinct_digests_distinct_paths(dir: Seq<char>, h1: Seq<u8>, h2: Seq<u8>)
    requires
        h1 != h2,
    ensures
        path_spec(dir, h1) != path_spec(dir, h2),
{
    if path_spec(dir, h1) == path_spec(dir, h2) {
        lemma_hex_of_len(h1);
        lemma_hex_of_len(h2);
        let p = dir_normalized(dir);
        assert(path_spec(dir, h1).len() == p.len() + hex_of(h1).len() + 5);
        assert(path_spec(dir, h2).len() == p.len() + hex_of(h2).len() + 5);
        assert(hex_of(h1).len() == hex_of(h2).len());
        assert(hex_of(h1) =~= hex_of(h2)) by {
            assert forall|i: int| 0 <= i < hex_of(h1).len() implies hex_of(h1)[i]
                == hex_of(h2)[i] by {
                assert(path_spec(dir, h1)[p.len() + i] == hex_of(h1)[i]);
                assert(path_spec(dir, h2)[p.len() + i] == hex_of(h2)[i]);
            }
        }
        lemma_hex_of_injective(h1, h2);
        assert(false);
    }
}

} // verus!
