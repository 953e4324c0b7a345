//! Names of the files that the experiments write.

use std::path::PathBuf;
use vstd::prelude::*;
use crate::text::{decimal, push_decimal, string_of, zero_padded};

verus! {

/// The file system path type of the standard library, declared so that it can
/// stand in signatures.
#[verifier::external_type_specification]
#[verifier::external_body]
pub struct ExPathBuf(PathBuf);

/// What `PathBuf::with_added_extension` returns for `path` and `extension`.
pub uninterp spec fn path_with_added_extension(path: PathBuf, extension: Seq<char>) -> PathBuf;

/// Whether `s` holds no path separator: neither `/` nor `\` (the characters
/// that `std::path::is_separator` accepts on any platform).
pub open spec fn has_no_path_separator(s: Seq<char>) -> bool {
    forall|i: int| 0 <= i < s.len() ==> s[i] != '/' && s[i] != '\\'
}

/// The extension of the flow file of step `step` out of `steps`: `csv` for a
/// single step, and otherwise the step number with at least three digits
/// (zero-padded) followed by `.csv`.
pub open spec fn flow_output_extension_spec(steps: usize, step: usize) -> Seq<char> {
    if steps == 1 {
        seq!['c', 's', 'v']
    } else {
        zero_padded(decimal(step as nat), 3) + seq!['.', 'c', 's', 'v']
    }
}

/// The extension of the flow file of step `step` out of `steps`.
pub fn flow_output_extension(steps: usize, step: usize) -> (r: String)
    ensures
        r@ == flow_output_extension_spec(steps, step),
{
    let mut chars: Vec<char> = Vec::new();
    if steps == 1 {
        chars.push('c');
        chars.push('s');
        chars.push('v');
        assert(chars@ =~= seq!['c', 's', 'v']);
    } else {
        let mut digits: Vec<char> = Vec::new();
        push_decimal(&mut digits, step);
        assert(digits@ =~= decimal(step as nat));
        let mut k: usize = digits.len();
        while k < 3
            invariant
                digits@ == decimal(step as nat),
                digits@.len() <= k <= 3 || k == digits@.len(),
                chars@ == Seq::new((k - digits@.len()) as nat, |i: int| '0'),
            decreases 3 - k,
        {
            chars.push('0');
            assert(chars@ =~= Seq::new((k + 1 - digits@.len()) as nat, |i: int| '0'));
            k = k + 1;
        }
        let mut i: usize = 0;
        let ghost zeros = chars@;
        while i < digits.len()
            invariant
                i <= digits@.len(),
                chars@ == zeros + digits@.take(i as int),
            decreases digits@.len() - i,
        {
            chars.push(digits[i]);
            assert(digits@.take(i as int + 1) =~= digits@.take(i as int).push(digits@[i as int]));
            i = i + 1;
        }
        assert(digits@.take(digits@.len() as int) =~= digits@);
        chars.push('.');
        chars.push('c');
        chars.push('s');
        chars.push('v');
        assert(chars@ =~= zero_padded(decimal(step as nat), 3) + seq!['.', 'c', 's', 'v']);
    }
    string_of(chars.as_slice())
}

/// The path with `extension` added to it (`PathBuf::with_added_extension`).
/// The call panics on an extension that holds a path separator, so such
/// extensions are excluded; of the result only its name is claimed.
#[verifier::external_body]
fn with_added_extension(path: &PathBuf, extension: &String) -> (r: PathBuf)
    requires
        has_no_path_separator(extension@),
    ensures
        r == path_with_added_extension(*path, extension@),
{
    path.with_added_extension(extension)
}

/// The path of the flow file of step `step` out of `steps`: the template with
/// the extension [`flow_output_extension`] added.
pub fn flow_output_path_for_step(flow_output_path_template: &PathBuf, steps: usize, step: usize) -> (r: PathBuf)
    ensures
        r == path_with_added_extension(*flow_output_path_template, flow_output_extension_spec(steps, step)),
{
    let extension = flow_output_extension(steps, step);
    proof {
        lemma_flow_output_extension_plain(steps, step);
    }
    with_added_extension(flow_output_path_template, &extension)
}

/// The characters of a decimal numeral are digits.
proof fn lemma_decimal_digits(n: nat)
    ensures
        forall|i: int| 0 <= i < decimal(n).len() ==> 48 <= (#[trigger] decimal(n)[i]) as u32 <= 57,
    decreases n,
{
    if n >= 10 {
        lemma_decimal_digits(n / 10);
        assert forall|i: int| 0 <= i < decimal(n).len() implies 48 <= (#[trigger] decimal(n)[i]) as u32 <= 57 by {
            if i < decimal(n / 10).len() {
                assert(decimal(n)[i] == decimal(n / 10)[i]);
            }
        }
    }
}

/// The extension of a flow file holds no path separator.
proof fn lemma_flow_output_extension_plain(steps: usize, step: usize)
    ensures
        has_no_path_separator(flow_output_extension_spec(steps, step)),
{
    let e = flow_output_extension_spec(steps, step);
    if steps != 1 {
        let d = decimal(step as nat);
        lemma_decimal_digits(step as nat);
        let p = zero_padded(d, 3);
        assert forall|i: int| 0 <= i < p.len() implies 48 <= (#[trigger] p[i]) as u32 <= 57 by {
            if d.len() < 3 {
                let z = (3 - d.len()) as int;
                if i >= z {
                    assert(p[i] == d[i - z]);
                }
            }
        }
        assert forall|i: int| 0 <= i < e.len() implies e[i] != '/' && e[i] != '\\' by {
            if i < p.len() {
                assert(e[i] == p[i]);
            }
        }
    }
}

} // verus!
