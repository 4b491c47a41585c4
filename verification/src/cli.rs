//! Command-line arguments, and the pseudo-random steps that the network is timed on.

use vstd::prelude::*;

use crate::text::{chars_of, find, find_char, lemma_find_char, number_of, parse_number};

verus! {

/// The texts of a list of arguments.
pub open spec fn texts(args: Seq<String>) -> Seq<Seq<char>> {
    Seq::new(args.len(), |i: int| args[i]@)
}

/// The argument after the first `name` that has one after it, or the default.
pub open spec fn flag_value(args: Seq<Seq<char>>, name: Seq<char>, default: Seq<char>) -> Seq<char>
    decreases args.len(),
{
    if args.len() < 2 {
        default
    } else if args[0] == name {
        args[1]
    } else {
        flag_value(args.skip(1), name, default)
    }
}

/// The value of a flag, or its default.
pub fn parse_flag(args: &[String], name: &str, default: &str) -> (value: String)
    ensures
        value@ == flag_value(texts(args@), name@, default@),
        (forall|i: int| 0 <= i < args@.len() - 1 ==> (#[trigger] args@[i])@ != name@) ==> value@
            == default@,
        forall|k: int|
            0 <= k < args@.len() - 1 && (#[trigger] args@[k])@ == name@ && (forall|i: int|
                0 <= i < k ==> (#[trigger] args@[i])@ != name@) ==> value@ == args@[k + 1]@,
{
    let wanted: String = name.to_owned();
    let n: usize = args.len();
    let mut i: usize = 0;
    assert(texts(args@).skip(0) =~= texts(args@));
    while i < n && i + 1 < n
        invariant
            n == args@.len(),
            i <= n,
            wanted@ == name@,
            forall|j: int| 0 <= j < i ==> (#[trigger] args@[j])@ != name@,
            flag_value(texts(args@), name@, default@) == flag_value(
                texts(args@).skip(i as int),
                name@,
                default@,
            ),
        decreases n - i,
    {
        assert(texts(args@).skip(i as int).skip(1) =~= texts(args@).skip(i + 1));
        if args[i] == wanted {
            return args[i + 1].clone();
        }
        i = i + 1;
    }
    default.to_owned()
}

/// Whether a flag is among the arguments.
pub fn has_flag(args: &[String], name: &str) -> (found: bool)
    ensures
        found == texts(args@).contains(name@),
        found == exists|i: int| 0 <= i < args@.len() && (#[trigger] args@[i])@ == name@,
{
    let wanted: String = name.to_owned();
    for i in 0..args.len()
        invariant
            wanted@ == name@,
            forall|j: int| 0 <= j < i ==> (#[trigger] args@[j])@ != name@,
    {
        if args[i] == wanted {
            assert(texts(args@)[i as int] == name@);
            return true;
        }
    }
    proof {
        if texts(args@).contains(name@) {
            let j = choose|j: int| 0 <= j < args@.len() && texts(args@)[j] == name@;
            assert(args@[j]@ == name@);
        }
    }
    false
}

/// Whether an argument is a flag.
pub open spec fn is_flag(arg: Seq<char>) -> bool {
    arg.len() > 0 && arg[0] == '-'
}

/// Whether the argument after this one is its value. Every flag has one but `--uniform`.
pub open spec fn takes_value(arg: Seq<char>) -> bool {
    is_flag(arg) && arg != "--uniform"@
}

/// Whether an argument is the value of some flag.
pub open spec fn is_value(args: Seq<Seq<char>>, arg: Seq<char>) -> bool {
    exists|i: int|
        0 <= i < args.len() - 1 && takes_value(#[trigger] args[i]) && args[i + 1] == arg
}

/// Whether an argument is a file: neither a flag nor the value of one.
pub open spec fn is_file(args: Seq<Seq<char>>, arg: Seq<char>) -> bool {
    !is_flag(arg) && !is_value(args, arg)
}

/// The files among the arguments.
pub open spec fn files_of(args: Seq<Seq<char>>) -> Seq<Seq<char>> {
    args.filter(|arg: Seq<char>| is_file(args, arg))
}

/// Whether an argument is a flag.
fn flag(arg: &String) -> (yes: bool)
    ensures
        yes == is_flag(arg@),
{
    let chars: Vec<char> = chars_of(arg.as_str());
    chars.len() > 0 && chars[0] == '-'
}

/// Whether an argument is the value of some flag.
fn value_of_flag(args: &[String], arg: &String) -> (yes: bool)
    ensures
        yes == is_value(texts(args@), arg@),
{
    let uniform: String = "--uniform".to_owned();
    let n: usize = args.len();
    let mut i: usize = 0;
    while i < n && i + 1 < n
        invariant
            n == args@.len(),
            i <= n,
            uniform@ == "--uniform"@,
            forall|j: int|
                0 <= j < i ==> !(takes_value(#[trigger] texts(args@)[j]) && texts(args@)[j + 1]
                    == arg@),
        decreases n - i,
    {
        if flag(&args[i]) && !(args[i] == uniform) && args[i + 1] == *arg {
            assert(takes_value(texts(args@)[i as int]));
            return true;
        }
        i = i + 1;
    }
    false
}

/// The files among the arguments, in order.
pub fn files(args: &[String]) -> (paths: Vec<String>)
    ensures
        texts(paths@) == files_of(texts(args@)),
{
    let mut paths: Vec<String> = Vec::new();
    let ghost all = texts(args@);
    let ghost pred = |arg: Seq<char>| is_file(all, arg);
    proof {
        reveal(Seq::filter);
        assert(all.take(0).filter(pred) =~= Seq::empty());
    }
    for i in 0..args.len()
        invariant
            all == texts(args@),
            pred == (|arg: Seq<char>| is_file(all, arg)),
            texts(paths@) == all.take(i as int).filter(pred),
    {
        proof {
            reveal(Seq::filter);
            assert(all.take(i + 1).drop_last() =~= all.take(i as int));
            assert(all.take(i + 1).last() == args@[i as int]@);
        }
        let ghost before = paths@;
        if !flag(&args[i]) && !value_of_flag(args, &args[i]) {
            let path: String = args[i].clone();
            paths.push(path);
            assert(texts(paths@) =~= texts(before).push(path@));
        }
    }
    assert(all.take(args@.len() as int) =~= all);
    paths
}

/// The fields of a list that commas separate.
pub open spec fn fields(s: Seq<char>) -> Seq<Seq<char>>
    decreases s.len(),
{
    let k = find_char(s, ',');
    if 0 <= k < s.len() {
        seq![s.take(k)] + fields(s.skip(k + 1))
    } else {
        seq![s]
    }
}

/// The numbers that the fields which are not empty write, or `None` if one writes none.
pub open spec fn sizes(fields: Seq<Seq<char>>) -> Option<Seq<usize>>
    decreases fields.len(),
{
    if fields.len() == 0 {
        Some(Seq::empty())
    } else {
        match sizes(fields.drop_last()) {
            None => None,
            Some(before) => if fields.last().len() == 0 {
                Some(before)
            } else {
                match number_of(fields.last(), usize::MAX as nat) {
                    None => None,
                    Some(n) => Some(before.push(n as usize)),
                }
            },
        }
    }
}

proof fn lemma_sizes_none(fields: Seq<Seq<char>>, k: int)
    requires
        0 <= k <= fields.len(),
        sizes(fields.take(k)) is None,
    ensures
        sizes(fields) is None,
    decreases fields.len() - k,
{
    if k < fields.len() {
        assert(fields.take(k + 1).drop_last() =~= fields.take(k));
        lemma_sizes_none(fields, k + 1);
    } else {
        assert(fields.take(k) =~= fields);
    }
}

/// The sequence lengths to time: those of a list that commas separate, or the one given if the
/// list has none. `None` if the list holds anything but numbers.
pub fn seq_list(list: &str, seq: usize) -> (result: Option<Vec<usize>>)
    ensures
        result is Some <==> sizes(fields(list@)) is Some,
        result matches Some(seqs) ==> seqs@ == (if sizes(fields(list@))->0.len() == 0 {
            seq![seq]
        } else {
            sizes(fields(list@))->0
        }),
{
    let chars: Vec<char> = chars_of(list);
    let mut rest: &[char] = chars.as_slice();
    let mut seqs: Vec<usize> = Vec::new();
    let ghost all = fields(list@);
    let ghost mut done: int = 0;
    assert(all.skip(0) =~= all);
    loop
        invariant_except_break
            0 <= done < all.len(),
            all.skip(done) == fields(rest@),
            sizes(all.take(done)) == Some(seqs@),
        invariant
            all == fields(list@),
        ensures
            sizes(all) == Some(seqs@),
        decreases rest@.len(),
    {
        let k: usize = find(rest, ',');
        let n: usize = rest.len();
        let field: &[char] = vstd::slice::slice_subrange(rest, 0, k);
        proof {
            if k < n {
                assert(fields(rest@)[0] == rest@.take(k as int));
            } else {
                assert(fields(rest@)[0] == rest@);
            }
            assert(all.skip(done)[0] == all[done]);
            assert(field@ =~= all[done]);
            assert(all.take(done + 1).drop_last() =~= all.take(done));
        }
        if field.len() > 0 {
            match parse_number(field, usize::MAX as u64) {
                Some(size) => {
                    seqs.push(size as usize);
                },
                None => {
                    proof {
                        lemma_sizes_none(all, done + 1);
                    }
                    return None;
                },
            }
        }
        proof {
            done = done + 1;
        }
        if k < n {
            proof {
                assert(all.skip(done) =~= fields(rest@).skip(1));
                assert(fields(rest@).skip(1) =~= fields(rest@.skip(k + 1)));
                assert(rest@.skip(k + 1) =~= rest@.subrange(k + 1, n as int));
            }
            rest = vstd::slice::slice_subrange(rest, k + 1, n);
        } else {
            assert(all.take(done) =~= all);
            break;
        }
    }
    if seqs.len() == 0 {
        seqs.push(seq);
    }
    Some(seqs)
}

/// The state after this one of the pseudo-random generator.
pub open spec fn next_state(s: u64) -> u64 {
    s.wrapping_mul(6364136223846793005).wrapping_add(1)
}

/// The state after `n` rounds.
pub open spec fn state_after(seed: u64, n: nat) -> u64
    decreases n,
{
    if n == 0 {
        seed
    } else {
        next_state(state_after(seed, (n - 1) as nat))
    }
}

/// The state after this one of the pseudo-random generator.
pub fn advance(s: u64) -> (next: u64)
    ensures
        next == next_state(s),
        next == s.wrapping_mul(6364136223846793005).wrapping_add(1),
{
    s.wrapping_mul(6364136223846793005).wrapping_add(1)
}

/// Pseudo-random path steps, padding among them.
pub fn seeded_steps(n: usize, seed: u64) -> (steps: Vec<i64>)
    requires
        n * 8 <= isize::MAX,
    ensures
        steps@ == Seq::new(
            n as nat,
            |k: int| ((state_after(seed, (k + 1) as nat) >> 33) % 12) as i64,
        ),
        forall|k: int| 0 <= k < n ==> 0 <= (#[trigger] steps@[k]) <= 11,
{
    let ghost all = Seq::new(
        n as nat,
        |k: int| ((state_after(seed, (k + 1) as nat) >> 33) % 12) as i64,
    );
    let mut steps: Vec<i64> = Vec::new();
    let mut s: u64 = seed;
    for k in 0..n
        invariant
            all == Seq::new(
                n as nat,
                |k: int| ((state_after(seed, (k + 1) as nat) >> 33) % 12) as i64,
            ),
            s == state_after(seed, k as nat),
            steps@ == all.take(k as int),
            forall|j: int| 0 <= j < k ==> 0 <= (#[trigger] steps@[j]) <= 11,
    {
        s = advance(s);
        assert(s == state_after(seed, (k + 1) as nat));
        let step: u64 = (s >> 33) % 12;
        steps.push(step as i64);
        assert(all.take(k + 1) =~= all.take(k as int).push(step as i64));
    }
    assert(all.take(n as int) =~= all);
    steps
}

/// The texts of a list of arguments are those of each, in order.
pub proof fn law_texts(args: Seq<String>)
    ensures
        texts(args) == args.map_values(|arg: String| arg@),
{
    assert(texts(args) =~= args.map_values(|arg: String| arg@));
}

/// The files are the arguments, in order, that do not begin with a hyphen and do not follow one
/// that does. Only `--uniform` may have a file after it.
pub proof fn law_files(args: Seq<Seq<char>>)
    ensures
        files_of(args) == args.filter(
            |arg: Seq<char>|
                !(arg.len() > 0 && arg[0] == '-') && !(exists|i: int|
                    0 <= i < args.len() - 1 && (#[trigger] args[i]).len() > 0 && args[i][0] == '-'
                        && args[i] != "--uniform"@ && args[i + 1] == arg),
        ),
{
    let plain = |arg: Seq<char>|
        !(arg.len() > 0 && arg[0] == '-') && !(exists|i: int|
            0 <= i < args.len() - 1 && (#[trigger] args[i]).len() > 0 && args[i][0] == '-'
                && args[i] != "--uniform"@ && args[i + 1] == arg);
    let kept = |arg: Seq<char>| is_file(args, arg);
    assert forall|arg: Seq<char>| #[trigger] kept(arg) == plain(arg) by {
        if is_value(args, arg) {
            let i = choose|i: int|
                0 <= i < args.len() - 1 && takes_value(#[trigger] args[i]) && args[i + 1] == arg;
            assert(args[i].len() > 0);
        }
        if exists|i: int|
            0 <= i < args.len() - 1 && (#[trigger] args[i]).len() > 0 && args[i][0] == '-'
                && args[i] != "--uniform"@ && args[i + 1] == arg {
            let i = choose|i: int|
                0 <= i < args.len() - 1 && (#[trigger] args[i]).len() > 0 && args[i][0] == '-'
                    && args[i] != "--uniform"@ && args[i + 1] == arg;
            assert(takes_value(args[i]));
        }
    }
    assert(kept =~= plain);
}

/// A list without commas is one field, and what stands before the first comma of any other is a
/// field before those of what stands after it.
pub proof fn law_fields(field: Seq<char>, rest: Seq<char>)
    requires
        !field.contains(','),
    ensures
        fields(field) == seq![field],
        fields(field + seq![','] + rest) == seq![field] + fields(rest),
{
    let list = field + seq![','] + rest;
    assert forall|i: int| 0 <= i < field.len() implies field[i] != ',' && list[i] != ',' by {
        assert(field.contains(field[i]));
    }
    lemma_find_char(field, ',', field.len() as int);
    lemma_find_char(list, ',', field.len() as int);
    assert(list.take(field.len() as int) =~= field);
    assert(list.skip(field.len() as int + 1) =~= rest);
}

/// The lengths in a list are the numbers that its fields write, in order, without the fields
/// that are empty. If any other field writes no number there are none.
pub proof fn law_sizes(fields: Seq<Seq<char>>)
    ensures
        sizes(fields) is Some <==> forall|i: int|
            0 <= i < fields.len() && (#[trigger] fields[i]).len() > 0 ==> number_of(
                fields[i],
                usize::MAX as nat,
            ) is Some,
        sizes(fields) matches Some(v) ==> v == fields.filter(
            |f: Seq<char>| f.len() > 0,
        ).map_values(|f: Seq<char>| number_of(f, usize::MAX as nat)->0 as usize),
    decreases fields.len(),
{
    reveal(Seq::filter);
    let kept = |f: Seq<char>| f.len() > 0;
    let number = |f: Seq<char>| number_of(f, usize::MAX as nat)->0 as usize;
    if fields.len() > 0 {
        let before = fields.drop_last();
        law_sizes(before);
        assert(forall|i: int| 0 <= i < before.len() ==> before[i] == fields[i]);
        assert(fields.last() == fields[fields.len() - 1]);
        if sizes(before) is None {
            let i = choose|i: int|
                0 <= i < before.len() && (#[trigger] before[i]).len() > 0 && number_of(
                    before[i],
                    usize::MAX as nat,
                ) is None;
            assert(fields[i].len() > 0 && number_of(fields[i], usize::MAX as nat) is None);
        } else if fields.last().len() > 0 {
            assert(before.filter(kept).push(fields.last()).map_values(number)
                =~= before.filter(kept).map_values(number).push(number(fields.last())));
        }
    } else {
        assert(fields.filter(kept).map_values(number) =~= Seq::<usize>::empty());
    }
}

/// The generator starts at its seed, each round multiplies and adds, and the rounds of a run can
/// be split anywhere.
pub proof fn law_generator(seed: u64, m: nat, n: nat)
    ensures
        state_after(seed, 0) == seed,
        state_after(seed, 1) == seed.wrapping_mul(6364136223846793005).wrapping_add(1),
        state_after(seed, m + n) == state_after(state_after(seed, m), n),
    decreases n,
{
    reveal_with_fuel(state_after, 2);
    if n > 0 {
        law_generator(seed, m, (n - 1) as nat);
    }
}

/// The value of a flag is read back from where it was written, whatever other arguments there
/// are, as long as the flag does not stand before.
pub proof fn law_flag_reads_back(
    before: Seq<Seq<char>>,
    name: Seq<char>,
    value: Seq<char>,
    after: Seq<Seq<char>>,
    default: Seq<char>,
)
    requires
        !before.contains(name),
    ensures
        flag_value(before + seq![name, value] + after, name, default) == value,
    decreases before.len(),
{
    let args = before + seq![name, value] + after;
    if before.len() > 0 {
        assert(args[0] == before[0]);
        assert(before.contains(before[0]));
        assert(args.skip(1) =~= before.skip(1) + seq![name, value] + after);
        assert(!before.skip(1).contains(name)) by {
            if before.skip(1).contains(name) {
                let i = choose|i: int| 0 <= i < before.skip(1).len() && before.skip(1)[i] == name;
                assert(before[i + 1] == name);
            }
        }
        law_flag_reads_back(before.skip(1), name, value, after, default);
    } else {
        assert(args[0] == name);
        assert(args[1] == value);
    }
}

} // verus!
