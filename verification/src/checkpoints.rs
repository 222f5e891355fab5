//! The checkpoints that a run leaves behind, one for each superbatch.
//!
//! The checkpoint of superbatch `n` of the net `id` is named `id-n`.

use crate::numbers::{
    decimal, decimal_string, lemma_decimal_read_back, lemma_decimal_shape, lemma_decimal_unique,
    parse_number, parsed_number,
};
use vstd::prelude::*;
use vstd::string::*;

verus! {

/// The name of the checkpoint of superbatch `n`.
pub open spec fn checkpoint_name(net_id: Seq<char>, n: nat) -> Seq<char> {
    net_id.push('-') + decimal(n)
}

/// The superbatch that a file name stands for, if it is the name of a checkpoint of
/// the net.
pub open spec fn checkpoint_number(net_id: Seq<char>, name: Seq<char>) -> Option<nat> {
    let prefix = net_id.push('-');
    if prefix.is_prefix_of(name) {
        parsed_number(name.skip(prefix.len() as int))
    } else {
        None
    }
}

/// Whether `next` is the superbatch after the latest checkpoint among `names`, the
/// first superbatch being 1.
pub open spec fn is_next_superbatch(
    net_id: Seq<char>,
    names: Seq<Seq<char>>,
    next: nat,
) -> bool {
    &&& next >= 1
    &&& forall|k: int|
        0 <= k < names.len() ==> (checkpoint_number(net_id, #[trigger] names[k]) matches Some(n)
            ==> n < next)
    &&& next > 1 ==> exists|k: int|
        0 <= k < names.len() && checkpoint_number(net_id, #[trigger] names[k]) == Some(
            (next - 1) as nat,
        )
}

/// The contents of some strings.
pub open spec fn texts(names: Seq<String>) -> Seq<Seq<char>> {
    names.map_values(|s: String| s@)
}

/// A file name that is the net, a hyphen and a number stands for that number: what
/// comes after the hyphen decides.
pub proof fn lemma_checkpoint_number(net_id: Seq<char>, rest: Seq<char>)
    ensures
        checkpoint_number(net_id, net_id + seq!['-'] + rest) == parsed_number(rest),
{
    let prefix = net_id.push('-');
    let name = net_id + seq!['-'] + rest;
    assert(prefix =~= name.take(prefix.len() as int));
    assert(name.skip(prefix.len() as int) =~= rest);
}

/// A file name that is not the net, a hyphen and something stands for no superbatch.
pub proof fn lemma_other_name(net_id: Seq<char>, name: Seq<char>)
    requires
        forall|rest: Seq<char>| name != #[trigger] (net_id + seq!['-'] + rest),
    ensures
        checkpoint_number(net_id, name) is None,
{
    let prefix = net_id.push('-');
    if prefix.is_prefix_of(name) {
        let rest = name.skip(prefix.len() as int);
        assert(prefix == name.take(prefix.len() as int));
        assert forall|i: int| 0 <= i < name.len() implies name[i] == #[trigger] (net_id + seq!['-']
            + rest)[i] by {
            if i < prefix.len() {
                assert(prefix[i] == name.take(prefix.len() as int)[i]);
            }
        }
        assert(name =~= net_id + seq!['-'] + rest);
    }
}

/// The name of a checkpoint is the net, a hyphen, and the digits of the superbatch
/// without a leading zero.
pub proof fn lemma_checkpoint_name(net_id: Seq<char>, n: nat)
    ensures
        checkpoint_name(net_id, n).len() > net_id.len() + 1,
        checkpoint_name(net_id, n).take(net_id.len() as int) == net_id,
        checkpoint_name(net_id, n)[net_id.len() as int] == '-',
        forall|i: int|
            net_id.len() < i < checkpoint_name(net_id, n).len() ==> 48 <= #[trigger] checkpoint_name(
                net_id,
                n,
            )[i] as int && checkpoint_name(net_id, n)[i] as int <= 57,
        n > 0 ==> checkpoint_name(net_id, n)[net_id.len() + 1int] != '0',
        n <= usize::MAX ==> parsed_number(checkpoint_name(net_id, n).skip(net_id.len() + 1int))
            == Some(n),
{
    let name = checkpoint_name(net_id, n);
    lemma_decimal_shape(n);
    assert(name.take(net_id.len() as int) =~= net_id);
    assert(name.skip(net_id.len() + 1int) =~= decimal(n));
    assert forall|i: int| net_id.len() < i < name.len() implies 48 <= #[trigger] name[i] as int
        && name[i] as int <= 57 by {
        assert(name[i] == decimal(n)[i - net_id.len() - 1]);
    }
    if n <= usize::MAX {
        lemma_decimal_read_back(n);
    }
}

/// Of the names made of the net, a hyphen and digits without a leading zero, only the
/// checkpoint's own stands for its superbatch.
pub proof fn lemma_checkpoint_name_unique(net_id: Seq<char>, digits: Seq<char>, n: nat)
    requires
        checkpoint_number(net_id, net_id + seq!['-'] + digits) == Some(n),
        forall|i: int|
            0 <= i < digits.len() ==> 48 <= #[trigger] digits[i] as int && digits[i] as int <= 57,
        digits.len() > 1 ==> digits[0] != '0',
    ensures
        net_id + seq!['-'] + digits == checkpoint_name(net_id, n),
{
    lemma_checkpoint_number(net_id, digits);
    lemma_decimal_unique(digits, n);
    assert(net_id + seq!['-'] + digits =~= checkpoint_name(net_id, n));
}

/// There is only one superbatch after the latest checkpoint.
pub proof fn lemma_next_superbatch_unique(
    net_id: Seq<char>,
    names: Seq<Seq<char>>,
    a: nat,
    b: nat,
)
    requires
        is_next_superbatch(net_id, names, a),
        is_next_superbatch(net_id, names, b),
    ensures
        a == b,
{
    if a < b {
        let k = choose|k: int|
            0 <= k < names.len() && checkpoint_number(net_id, #[trigger] names[k]) == Some(
                (b - 1) as nat,
            );
        assert(checkpoint_number(net_id, names[k]) == Some((b - 1) as nat));
    } else if b < a {
        let k = choose|k: int|
            0 <= k < names.len() && checkpoint_number(net_id, #[trigger] names[k]) == Some(
                (a - 1) as nat,
            );
        assert(checkpoint_number(net_id, names[k]) == Some((a - 1) as nat));
    }
}

/// A checkpoint's superbatch is read back from its name.
pub proof fn lemma_checkpoint_name_read_back(net_id: Seq<char>, n: nat)
    requires
        n <= usize::MAX,
    ensures
        checkpoint_number(net_id, checkpoint_name(net_id, n)) == Some(n),
{
    let prefix = net_id.push('-');
    let name = checkpoint_name(net_id, n);
    assert(prefix =~= name.take(prefix.len() as int));
    assert(name.skip(prefix.len() as int) =~= decimal(n));
    lemma_decimal_read_back(n);
}

/// Once the checkpoint of a superbatch that is not behind the others is saved, the
/// next session starts at the superbatch after it.
pub proof fn lemma_resume_after_saving(
    net_id: Seq<char>,
    names: Seq<Seq<char>>,
    next: nat,
    saved: nat,
)
    requires
        is_next_superbatch(net_id, names, next),
        next <= saved <= usize::MAX,
    ensures
        is_next_superbatch(net_id, names.push(checkpoint_name(net_id, saved)), saved + 1),
{
    let more = names.push(checkpoint_name(net_id, saved));
    lemma_checkpoint_name_read_back(net_id, saved);
    assert(more[names.len() as int] == checkpoint_name(net_id, saved));
    assert forall|k: int| 0 <= k < more.len() implies (checkpoint_number(
        net_id,
        #[trigger] more[k],
    ) matches Some(n) ==> n < saved + 1) by {
        if k < names.len() {
            assert(more[k] == names[k]);
        }
    }
}

/// Whether `name` starts with `net_id` and a hyphen.
fn has_prefix(net_id: &str, name: &str) -> (b: bool)
    ensures
        b == net_id@.push('-').is_prefix_of(name@),
{
    let id_len: usize = net_id.unicode_len();
    let len: usize = name.unicode_len();
    let ghost prefix = net_id@.push('-');
    if len <= id_len {
        return false;
    }
    let mut i: usize = 0;
    while i < id_len
        invariant
            i <= id_len < len,
            id_len == net_id@.len(),
            len == name@.len(),
            prefix == net_id@.push('-'),
            forall|k: int| 0 <= k < i ==> #[trigger] net_id@[k] == name@[k],
        decreases id_len - i,
    {
        if net_id.get_char(i) != name.get_char(i) {
            assert(prefix[i as int] != name@.take(prefix.len() as int)[i as int]);
            return false;
        }
        i = i + 1;
    }
    if name.get_char(id_len) == '-' {
        assert(prefix =~= name@.take(prefix.len() as int));
        true
    } else {
        assert(prefix[id_len as int] != name@.take(prefix.len() as int)[id_len as int]);
        false
    }
}

/// The superbatch of a checkpoint of the net, by its file name.
pub fn read_checkpoint_number(net_id: &str, name: &str) -> (n: Option<usize>)
    ensures
        n matches Some(v) ==> checkpoint_number(net_id@, name@) == Some(v as nat),
        n is None ==> checkpoint_number(net_id@, name@) is None,
{
    if has_prefix(net_id, name) {
        let id_len: usize = net_id.unicode_len();
        let len: usize = name.unicode_len();
        let rest: &str = name.substring_char(id_len + 1, len);
        assert(rest@ =~= name@.skip(net_id@.push('-').len() as int));
        parse_number(rest)
    } else {
        None
    }
}

/// The superbatch to start at, given the file names in the directory of the
/// checkpoints (none if there is no such directory).
pub fn find_latest_superbatch(net_id: &str, names: &Vec<String>) -> (next: usize)
    requires
        forall|k: int|
            0 <= k < names@.len() ==> checkpoint_number(net_id@, (#[trigger] names@[k])@) != Some(
                usize::MAX as nat,
            ),
    ensures
        is_next_superbatch(net_id@, texts(names@), next as nat),
        next >= 1,
        forall|k: int|
            0 <= k < names@.len() ==> (checkpoint_number(net_id@, (#[trigger] names@[k])@) matches
                Some(n) ==> n < next),
        next > 1 ==> exists|k: int|
            0 <= k < names@.len() && checkpoint_number(net_id@, (#[trigger] names@[k])@) == Some(
                (next - 1) as nat,
            ),
{
    let mut max_sb: usize = 0;
    let mut i: usize = 0;
    while i < names.len()
        invariant
            i <= names@.len(),
            max_sb < usize::MAX,
            forall|k: int|
                0 <= k < names@.len() ==> checkpoint_number(net_id@, (#[trigger] names@[k])@)
                    != Some(usize::MAX as nat),
            forall|k: int|
                0 <= k < i ==> (checkpoint_number(net_id@, (#[trigger] names@[k])@) matches Some(n)
                    ==> n <= max_sb),
            max_sb > 0 ==> exists|k: int|
                0 <= k < i && checkpoint_number(net_id@, (#[trigger] names@[k])@) == Some(
                    max_sb as nat,
                ),
        decreases names@.len() - i,
    {
        if let Some(num) = read_checkpoint_number(net_id, names[i].as_str()) {
            if num > max_sb {
                max_sb = num;
            }
        }
        i = i + 1;
    }
    let ghost all = texts(names@);
    proof {
        assert forall|k: int| 0 <= k < all.len() implies (checkpoint_number(
            net_id@,
            #[trigger] all[k],
        ) matches Some(n) ==> n <= max_sb) by {
            assert(all[k] == names@[k]@);
        }
        if max_sb > 0 {
            let k = choose|k: int|
                0 <= k < names@.len() && checkpoint_number(net_id@, (#[trigger] names@[k])@)
                    == Some(max_sb as nat);
            assert(all[k] == names@[k]@);
        }
    }
    if max_sb == 0 {
        1
    } else {
        max_sb + 1
    }
}

/// The path of the checkpoint that a session starting at `start_superbatch` resumes
/// from: none if it starts afresh.
pub fn resume_path(output_dir: &str, net_id: &str, start_superbatch: usize) -> (path: Option<
    String,
>)
    ensures
        path is Some <==> start_superbatch > 1,
        path matches Some(p) ==> p@ == output_dir@.push('/') + checkpoint_name(
            net_id@,
            (start_superbatch - 1) as nat,
        ),
        path matches Some(p) ==> {
            let digits = p@.skip(output_dir@.len() + 1int + net_id@.len() + 1int);
            &&& p@ == output_dir@ + seq!['/'] + net_id@ + seq!['-'] + digits
            &&& digits.len() > 0
            &&& forall|i: int|
                0 <= i < digits.len() ==> '0' <= #[trigger] digits[i] && digits[i] <= '9'
            &&& digits[0] != '0'
            &&& parsed_number(digits) == Some((start_superbatch - 1) as nat)
        },
{
    if start_superbatch > 1 {
        proof {
            reveal_strlit("/");
            reveal_strlit("-");
        }
        let mut path: String = String::from_str(output_dir);
        path.append("/");
        path.append(net_id);
        path.append("-");
        let number: String = decimal_string(start_superbatch - 1);
        path.append(number.as_str());
        proof {
            let digits = path@.skip(output_dir@.len() + 1int + net_id@.len() + 1int);
            assert(digits =~= number@);
            assert(path@ =~= output_dir@ + seq!['/'] + net_id@ + seq!['-'] + digits);
        }
        assert(path@ =~= output_dir@.push('/') + checkpoint_name(
            net_id@,
            (start_superbatch - 1) as nat,
        ));
        Some(path)
    } else {
        None
    }
}

} // verus!
