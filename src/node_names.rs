//! Validators for the node names of a few ontologies: a base name matched
//! without regard to ASCII case, a separator, and an identifier whose shape
//! each ontology fixes.
use vstd::prelude::*;
use vstd::string::StringSliceAdditionalSpecFns;

verus! {

/// The ASCII upper case of a byte; other bytes are unchanged.
pub open spec fn upper(c: u8) -> u8 {
    if 97 <= c <= 122 {
        (c - 32) as u8
    } else {
        c
    }
}

/// `s` starts with `prefix`, ignoring ASCII case.
pub open spec fn folded_prefix(s: Seq<u8>, prefix: Seq<u8>) -> bool {
    &&& prefix.len() <= s.len()
    &&& forall|i: int| 0 <= i < prefix.len() ==> upper(#[trigger] s[i]) == upper(prefix[i])
}

/// `s` holds `part` at position `at`, byte for byte.
pub open spec fn holds_at(s: Seq<u8>, at: int, part: Seq<u8>) -> bool {
    &&& 0 <= at
    &&& at + part.len() <= s.len()
    &&& forall|i: int| 0 <= i < part.len() ==> #[trigger] s[at + i] == part[i]
}

/// Every byte of `s` from position `from` on is an ASCII digit.
pub open spec fn digits_from(s: Seq<u8>, from: int) -> bool {
    forall|i: int| from <= i < s.len() ==> 48 <= #[trigger] s[i] <= 57
}

/// Where the identifier starts: after the base name and the separator.
pub open spec fn id_start(base: Seq<u8>, separator: Option<u8>) -> int {
    base.len() + if separator is Some {
        1int
    } else {
        0int
    }
}

/// Where the numeric part starts: after the identifier's acronym.
pub open spec fn numeric_start(
    base: Seq<u8>,
    separator: Option<u8>,
    acronym: Option<Seq<u8>>,
) -> int {
    id_start(base, separator) + match acronym {
        Some(a) => a.len() as int,
        None => 0int,
    }
}

/// Whether the node name `s` has the shape given by the rest: it starts with
/// `base` (ASCII case ignored), followed by `separator` if one is given, and
/// then the identifier; the whole name has `base_length` bytes, the identifier
/// `id_length` bytes and starts with `acronym`, and what follows the acronym is
/// `numeric_length` ASCII digits, each where given.
pub open spec fn pattern_holds(
    s: Seq<u8>,
    base: Seq<u8>,
    base_length: Option<usize>,
    separator: Option<u8>,
    acronym: Option<Seq<u8>>,
    id_length: Option<usize>,
    numeric_length: Option<usize>,
) -> bool {
    let start = id_start(base, separator);
    let nstart = numeric_start(base, separator, acronym);
    &&& folded_prefix(s, base)
    &&& start <= s.len()
    &&& (separator matches Some(c) ==> s[base.len() as int] == c)
    &&& (base_length matches Some(l) ==> s.len() == l)
    &&& (id_length matches Some(l) ==> s.len() - start == l)
    &&& (acronym matches Some(a) ==> holds_at(s, start, a))
    &&& (numeric_length matches Some(l) ==> nstart <= s.len() && s.len() - nstart == l
        && digits_from(s, nstart))
}

fn upper_byte(c: u8) -> (r: u8)
    ensures
        r == upper(c),
{
    if 97 <= c && c <= 122 {
        c - 32
    } else {
        c
    }
}

fn has_folded_prefix(s: &[u8], prefix: &Vec<u8>) -> (r: bool)
    ensures
        r == folded_prefix(s@, prefix@),
{
    if prefix.len() > s.len() {
        return false;
    }
    let mut i: usize = 0;
    while i < prefix.len()
        invariant
            prefix.len() <= s.len(),
            i <= prefix.len(),
            forall|k: int| 0 <= k < i ==> upper(#[trigger] s@[k]) == upper(prefix@[k]),
        decreases prefix.len() - i,
    {
        if upper_byte(s[i]) != upper_byte(prefix[i]) {
            return false;
        }
        i = i + 1;
    }
    true
}

fn has_at(s: &[u8], at: usize, part: &Vec<u8>) -> (r: bool)
    ensures
        r == holds_at(s@, at as int, part@),
{
    if at > s.len() || part.len() > s.len() - at {
        return false;
    }
    let mut i: usize = 0;
    while i < part.len()
        invariant
            at + part.len() <= s.len(),
            i <= part.len(),
            forall|k: int| 0 <= k < i ==> #[trigger] s@[at + k] == part@[k],
        decreases part.len() - i,
    {
        if s[at + i] != part[i] {
            return false;
        }
        i = i + 1;
    }
    true
}

fn all_digits_from(s: &[u8], from: usize) -> (r: bool)
    ensures
        r == digits_from(s@, from as int),
{
    let mut i: usize = from;
    while i < s.len()
        invariant
            from <= i,
            forall|k: int| from <= k < i ==> 48 <= #[trigger] s@[k] <= 57,
        decreases s.len() - i,
    {
        if s[i] < 48 || s[i] > 57 {
            return false;
        }
        i = i + 1;
    }
    true
}

/// Whether the node name `s` has the shape that the other arguments give
/// (see `pattern_holds`).
pub fn matches_pattern(
    s: &[u8],
    base: &Vec<u8>,
    base_length: Option<usize>,
    separator: Option<u8>,
    acronym: Option<&Vec<u8>>,
    id_length: Option<usize>,
    numeric_length: Option<usize>,
) -> (r: bool)
    ensures
        r == pattern_holds(
            s@,
            base@,
            base_length,
            separator,
            match acronym {
                Some(a) => Some(a@),
                None => None,
            },
            id_length,
            numeric_length,
        ),
{
    let ghost acr = match acronym {
        Some(a) => Some(a@),
        None => None,
    };
    if !has_folded_prefix(s, base) {
        return false;
    }
    let start: usize = match separator {
        Some(c) => {
            if base.len() >= s.len() || s[base.len()] != c {
                return false;
            }
            base.len() + 1
        },
        None => base.len(),
    };
    assert(start == id_start(base@, separator));
    if let Some(l) = base_length {
        if s.len() != l {
            return false;
        }
    }
    if let Some(l) = id_length {
        if s.len() - start != l {
            return false;
        }
    }
    let nstart: usize = match acronym {
        Some(a) => {
            if !has_at(s, start, a) {
                return false;
            }
            let total: usize = s.len();
            assert(start + a@.len() <= total);
            start + a.len()
        },
        None => start,
    };
    assert(nstart == numeric_start(base@, separator, acr));
    if let Some(l) = numeric_length {
        if s.len() - nstart != l {
            return false;
        }
        if !all_digits_from(s, nstart) {
            return false;
        }
    }
    true
}

/// Whether `node_name` is an Animal Genome Chicken QTL node name, such as `chickenQTL:1768`.
pub fn is_valid_animal_genome_chicken_qtl_node_name(node_name: &str) -> (r: bool)
    ensures
        r == pattern_holds(
            node_name.spec_bytes(),
            seq![
                'C' as u8, 'H' as u8, 'I' as u8, 'C' as u8, 'K' as u8, 'E' as u8, 'N' as u8,
                'Q' as u8, 'T' as u8, 'L' as u8,
            ],
            None,
            Some(':' as u8),
            None,
            None,
            None,
        ),
{
    let base: Vec<u8> = vec![
        'C' as u8, 'H' as u8, 'I' as u8, 'C' as u8, 'K' as u8, 'E' as u8, 'N' as u8, 'Q' as u8,
        'T' as u8, 'L' as u8,
    ];
    matches_pattern(node_name.as_bytes(), &base, None, Some(':' as u8), None, None, None)
}

/// Whether `node_name` is a Chromosome Ontology node name, such as `CHR:10090chr10`.
pub fn is_valid_chromosome_ontology_node_name(node_name: &str) -> (r: bool)
    ensures
        r == pattern_holds(
            node_name.spec_bytes(),
            seq!['C' as u8, 'H' as u8, 'R' as u8],
            None,
            Some(':' as u8),
            None,
            None,
            None,
        ),
{
    let base: Vec<u8> = vec!['C' as u8, 'H' as u8, 'R' as u8];
    matches_pattern(node_name.as_bytes(), &base, None, Some(':' as u8), None, None, None)
}

/// Whether `node_name` is a Mental Functioning Ontology node name, such as `MF:0000013`.
pub fn is_valid_mental_functioning_ontology_node_name(node_name: &str) -> (r: bool)
    ensures
        r == pattern_holds(
            node_name.spec_bytes(),
            seq!['M' as u8, 'F' as u8],
            Some(10),
            Some(':' as u8),
            None,
            Some(7),
            Some(7),
        ),
{
    let base: Vec<u8> = vec!['M' as u8, 'F' as u8];
    matches_pattern(node_name.as_bytes(), &base, Some(10), Some(':' as u8), None, Some(7), Some(7))
}

/// Whether `node_name` is a Protein Modification node name, such as `MOD:00764`.
pub fn is_valid_protein_modification_node_name(node_name: &str) -> (r: bool)
    ensures
        r == pattern_holds(
            node_name.spec_bytes(),
            seq!['M' as u8, 'O' as u8, 'D' as u8],
            Some(9),
            Some(':' as u8),
            None,
            Some(5),
            Some(5),
        ),
{
    let base: Vec<u8> = vec!['M' as u8, 'O' as u8, 'D' as u8];
    matches_pattern(node_name.as_bytes(), &base, Some(9), Some(':' as u8), None, Some(5), Some(5))
}

/// Whether `node_name` is a Yeast Genome Reference node name, such as `SGD_REF:S000059951`.
pub fn is_valid_yeast_genome_reference_node_name(node_name: &str) -> (r: bool)
    ensures
        r == pattern_holds(
            node_name.spec_bytes(),
            seq!['S' as u8, 'G' as u8, 'D' as u8, '_' as u8, 'R' as u8, 'E' as u8, 'F' as u8],
            Some(18),
            Some(':' as u8),
            Some(seq!['S' as u8]),
            Some(10),
            Some(9),
        ),
{
    let base: Vec<u8> = vec![
        'S' as u8, 'G' as u8, 'D' as u8, '_' as u8, 'R' as u8, 'E' as u8, 'F' as u8,
    ];
    let acronym: Vec<u8> = vec!['S' as u8];
    matches_pattern(
        node_name.as_bytes(),
        &base,
        Some(18),
        Some(':' as u8),
        Some(&acronym),
        Some(10),
        Some(9),
    )
}

} // verus!
