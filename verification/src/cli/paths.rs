//! Where output goes: next to the input or into a directory, under a name that derives from the
//! input's name.
use crate::path::{file_name, file_name_text, join, join_text, parent, parent_text};
use crate::path::{law_file_name_names_file, law_join_keeps_the_name, names_file};
use crate::text::{decimal, optional_text, push_decimal, same_text};
use vstd::prelude::*;

verus! {

/// Whether `s` ends in `end`.
pub open spec fn ends_in(s: Seq<char>, end: Seq<char>) -> bool {
    s.len() >= end.len() && s.skip(s.len() - end.len()) == end
}

/// `s` without an ending of `n` characters.
pub open spec fn without_end(s: Seq<char>, n: nat) -> Seq<char> {
    s.take(s.len() - n)
}

/// A file's name without the ending of an ensemble file.
pub open spec fn ben_stem_text(name: Seq<char>) -> Seq<char> {
    if ends_in(name, ".jsonl.ben"@) {
        without_end(name, ".jsonl.ben"@.len())
    } else if ends_in(name, ".ben"@) {
        without_end(name, ".ben"@.len())
    } else if ends_in(name, ".xben"@) {
        without_end(name, ".xben"@.len())
    } else if ends_in(name, ".bendl"@) {
        without_end(name, ".bendl"@.len())
    } else {
        name
    }
}

/// Where a file with `suffix` behind the input's stem goes.
pub open spec fn output_path_text(
    in_ben_file: Seq<char>,
    suffix: Seq<char>,
    output_dir: Option<Seq<char>>,
) -> Seq<char> {
    let new_name = ben_stem_text(file_name_text(in_ben_file)->0) + suffix;
    match output_dir {
        Some(dir) => join_text(dir, new_name),
        None => match parent_text(in_ben_file) {
            Some(dir) => if dir.len() > 0 {
                join_text(dir, new_name)
            } else {
                new_name
            },
            None => new_name,
        },
    }
}

/// Where tallies go.
pub open spec fn tally_dir_text(
    in_ben_file: Seq<char>,
    output_dir: Option<Seq<char>>,
) -> Seq<char> {
    let dir_name = ben_stem_text(file_name_text(in_ben_file)->0) + "_tallies"@;
    match output_dir {
        Some(dir) => join_text(dir, dir_name),
        None => match parent_text(in_ben_file) {
            Some(dir) => join_text(dir, dir_name),
            None => join_text("."@, dir_name),
        },
    }
}

/// The name of the file with the tally of `key`, over all samples or over at most `max_samples`.
pub open spec fn tally_name_text(
    key: Seq<char>,
    stem: Seq<char>,
    max_samples: Option<usize>,
) -> Seq<char> {
    match max_samples {
        Some(n) => key + "_tally_up_to_"@ + decimal(n as nat) + "_"@ + stem + ".parquet"@,
        None => key + "_tally_"@ + stem + ".parquet"@,
    }
}

/// Where the tally of `key` goes.
pub open spec fn tally_path_text(
    in_ben_file: Seq<char>,
    key: Seq<char>,
    output_dir: Option<Seq<char>>,
    max_samples: Option<usize>,
) -> Seq<char> {
    join_text(
        tally_dir_text(in_ben_file, output_dir),
        tally_name_text(key, ben_stem_text(file_name_text(in_ben_file)->0), max_samples),
    )
}

/// `name` without `end`, if it ends so.
fn strip_end(name: &str, end: &str) -> (r: Option<String>)
    ensures
        match r {
            Some(stem) => ends_in(name@, end@) && stem@ == without_end(name@, end@.len()),
            None => !ends_in(name@, end@),
        },
{
    let n: usize = name.unicode_len();
    let m: usize = end.unicode_len();
    if n < m {
        return None;
    }
    proof {
        assert(name@.subrange(n - m, n as int) =~= name@.skip(n - m));
        assert(name@.subrange(0, n - m) =~= name@.take(n - m));
    }
    if same_text(name.substring_char(n - m, n), end) {
        Some(name.substring_char(0, n - m).to_owned())
    } else {
        None
    }
}

/// The input's name without the ending of an ensemble file.
pub fn ben_stem(in_ben_file: &str) -> (r: String)
    requires
        file_name_text(in_ben_file@) is Some,
    ensures
        r@ == ben_stem_text(file_name_text(in_ben_file@)->0),
{
    let base_name = match file_name(in_ben_file) {
        Some(name) => name,
        None => String::new(),
    };
    if let Some(stem) = strip_end(base_name.as_str(), ".jsonl.ben") {
        return stem;
    }
    if let Some(stem) = strip_end(base_name.as_str(), ".ben") {
        return stem;
    }
    if let Some(stem) = strip_end(base_name.as_str(), ".xben") {
        return stem;
    }
    if let Some(stem) = strip_end(base_name.as_str(), ".bendl") {
        return stem;
    }
    base_name
}

/// The path of an output file, which is not the input's.
pub fn build_output_path(in_ben_file: &str, suffix: &str, output_dir: Option<&str>) -> (r: String)
    requires
        file_name_text(in_ben_file@) is Some,
        output_path_text(in_ben_file@, suffix@, optional_text(output_dir)) != in_ben_file@,
    ensures
        r@ == output_path_text(in_ben_file@, suffix@, optional_text(output_dir)),
        r@ != in_ben_file@,
{
    let mut new_name = ben_stem(in_ben_file);
    new_name.append(suffix);
    match output_dir {
        Some(dir) => join(dir, new_name.as_str()),
        None => match parent(in_ben_file) {
            Some(dir) => if dir.as_str().unicode_len() > 0 {
                join(dir.as_str(), new_name.as_str())
            } else {
                new_name
            },
            None => new_name,
        },
    }
}

/// The directory that holds the tallies of an ensemble.
pub fn build_tally_output_dir(in_ben_file: &str, output_dir: Option<&str>) -> (r: String)
    requires
        file_name_text(in_ben_file@) is Some,
    ensures
        r@ == tally_dir_text(in_ben_file@, optional_text(output_dir)),
{
    let mut dir_name = ben_stem(in_ben_file);
    dir_name.append("_tallies");
    match output_dir {
        Some(dir) => join(dir, dir_name.as_str()),
        None => match parent(in_ben_file) {
            Some(dir) => join(dir.as_str(), dir_name.as_str()),
            None => join(".", dir_name.as_str()),
        },
    }
}

/// The path of the tally of `key` over all samples.
pub fn build_tally_output_path(in_ben_file: &str, key: &str, output_dir: Option<&str>) -> (r:
    String)
    requires
        file_name_text(in_ben_file@) is Some,
    ensures
        r@ == tally_path_text(in_ben_file@, key@, optional_text(output_dir), None),
{
    build_capped_tally_output_path(in_ben_file, key, output_dir, None)
}

/// The path of the tally of `key`. A cap on the samples shows in the name.
pub fn build_capped_tally_output_path(
    in_ben_file: &str,
    key: &str,
    output_dir: Option<&str>,
    max_samples: Option<usize>,
) -> (r: String)
    requires
        file_name_text(in_ben_file@) is Some,
    ensures
        r@ == tally_path_text(in_ben_file@, key@, optional_text(output_dir), max_samples),
{
    let stem = ben_stem(in_ben_file);
    let mut name = key.to_owned();
    match max_samples {
        Some(n) => {
            name.append("_tally_up_to_");
            push_decimal(&mut name, n as u64);
            name.append("_");
        },
        None => {
            name.append("_tally_");
        },
    }
    name.append(stem.as_str());
    name.append(".parquet");
    let dir = build_tally_output_dir(in_ben_file, output_dir);
    join(dir.as_str(), name.as_str())
}

/// The stem is the name without at most ten characters.
proof fn lemma_stem_len(name: Seq<char>)
    ensures
        ben_stem_text(name).len() <= name.len() <= ben_stem_text(name).len() + 10,
        ben_stem_text(name) == name.take(ben_stem_text(name).len() as int),
{
    reveal_strlit(".jsonl.ben");
    reveal_strlit(".ben");
    reveal_strlit(".xben");
    reveal_strlit(".bendl");
    assert(name.take(name.len() as int) =~= name);
}

/// A suffix longer than any ending of an ensemble file leads to a path that is not the input's,
/// whatever the directory.
pub proof fn law_output_is_not_the_input(
    in_ben_file: Seq<char>,
    suffix: Seq<char>,
    output_dir: Option<Seq<char>>,
)
    requires
        file_name_text(in_ben_file) is Some,
        suffix.len() > 10,
        forall|i: int| 0 <= i < suffix.len() ==> #[trigger] suffix[i] != '/',
    ensures
        output_path_text(in_ben_file, suffix, output_dir) != in_ben_file,
        file_name_text(output_path_text(in_ben_file, suffix, output_dir)) == Some(
            ben_stem_text(file_name_text(in_ben_file)->0) + suffix,
        ),
{
    let base = file_name_text(in_ben_file)->0;
    let new_name = ben_stem_text(base) + suffix;
    law_file_name_names_file(in_ben_file);
    lemma_stem_len(base);
    reveal_strlit(".");
    reveal_strlit("..");
    assert forall|i: int| 0 <= i < new_name.len() implies #[trigger] new_name[i] != '/' by {
        if i < ben_stem_text(base).len() {
            assert(new_name[i] == base[i]);
        } else {
            assert(new_name[i] == suffix[i - ben_stem_text(base).len()]);
        }
    }
    assert(names_file(new_name));
    let dir = match output_dir {
        Some(dir) => dir,
        None => match parent_text(in_ben_file) {
            Some(dir) => dir,
            None => Seq::empty(),
        },
    };
    law_join_keeps_the_name(dir, new_name);
    assert(Seq::<char>::empty() + new_name =~= new_name);
    if dir.len() == 0 {
        assert(dir + new_name =~= new_name);
        assert(join_text(dir, new_name) == new_name);
    }
    assert(output_path_text(in_ben_file, suffix, output_dir) == join_text(dir, new_name));
    assert(new_name.len() > base.len());
}

/// Tallies of different keys go to different paths, where no key is an absolute path.
pub proof fn law_tallies_do_not_collide(
    in_ben_file: Seq<char>,
    first: Seq<char>,
    second: Seq<char>,
    output_dir: Option<Seq<char>>,
    max_samples: Option<usize>,
)
    requires
        first != second,
        first.len() > 0 ==> first[0] != '/',
        second.len() > 0 ==> second[0] != '/',
    ensures
        tally_path_text(in_ben_file, first, output_dir, max_samples) != tally_path_text(
            in_ben_file,
            second,
            output_dir,
            max_samples,
        ),
{
    let stem = ben_stem_text(file_name_text(in_ben_file)->0);
    let dir = tally_dir_text(in_ben_file, output_dir);
    let rest = tally_name_text(Seq::empty(), stem, max_samples);
    lemma_tally_name(first, stem, max_samples);
    lemma_tally_name(second, stem, max_samples);
    lemma_join_behind(dir, first, rest);
    lemma_join_behind(dir, second, rest);
    lemma_middles_differ(join_text(dir, Seq::empty()), first, second, rest);
}

proof fn lemma_tally_name(key: Seq<char>, stem: Seq<char>, max_samples: Option<usize>)
    ensures
        tally_name_text(key, stem, max_samples) == key + tally_name_text(
            Seq::empty(),
            stem,
            max_samples,
        ),
        tally_name_text(Seq::empty(), stem, max_samples).len() > 0,
        tally_name_text(Seq::empty(), stem, max_samples)[0] == '_',
{
    reveal_strlit("_tally_");
    reveal_strlit("_tally_up_to_");
    assert(tally_name_text(key, stem, max_samples) =~= key + tally_name_text(
        Seq::empty(),
        stem,
        max_samples,
    ));
}

proof fn lemma_join_behind(dir: Seq<char>, key: Seq<char>, rest: Seq<char>)
    requires
        key.len() > 0 ==> key[0] != '/',
        rest.len() > 0,
        rest[0] != '/',
    ensures
        join_text(dir, key + rest) == join_text(dir, Seq::empty()) + key + rest,
{
    assert((key + rest)[0] != '/');
    assert(join_text(dir, key + rest) =~= join_text(dir, Seq::empty()) + key + rest);
}

proof fn lemma_middles_differ(front: Seq<char>, a: Seq<char>, b: Seq<char>, rest: Seq<char>)
    requires
        a != b,
    ensures
        front + a + rest != front + b + rest,
{
    if front + a + rest == front + b + rest {
        assert((front + a + rest).len() == front.len() + a.len() + rest.len());
        assert((front + b + rest).len() == front.len() + b.len() + rest.len());
        assert forall|i: int| 0 <= i < a.len() implies a[i] == b[i] by {
            assert((front + a + rest)[front.len() + i] == a[i]);
            assert((front + b + rest)[front.len() + i] == b[i]);
        }
        assert(a =~= b);
    }
}

/// The stem of an ensemble file's name is the name without `.jsonl.ben`, `.ben`, `.xben` or
/// `.bendl`; any other name is its own stem.
pub proof fn law_ben_stem(stem: Seq<char>)
    ensures
        ben_stem_text(stem + ".jsonl.ben"@) == stem,
        !ends_in(stem, ".jsonl"@) ==> ben_stem_text(stem + ".ben"@) == stem,
        ben_stem_text(stem + ".xben"@) == stem,
        ben_stem_text(stem + ".bendl"@) == stem,
        !ends_in(stem, ".ben"@) && !ends_in(stem, ".xben"@) && !ends_in(stem, ".bendl"@)
            ==> ben_stem_text(stem) == stem,
{
    reveal_strlit(".jsonl.ben");
    reveal_strlit(".jsonl");
    reveal_strlit(".ben");
    reveal_strlit(".xben");
    reveal_strlit(".bendl");
    let a = stem + ".jsonl.ben"@;
    assert(a.skip(a.len() - 10) =~= ".jsonl.ben"@);
    assert(a.take(a.len() - 10) =~= stem);
    let b = stem + ".ben"@;
    assert(b.skip(b.len() - 4) =~= ".ben"@);
    assert(b.take(b.len() - 4) =~= stem);
    if ends_in(b, ".jsonl.ben"@) {
        let tail = b.skip(b.len() - 10);
        assert(stem.skip(stem.len() - 6) =~= ".jsonl"@) by {
            assert forall|i: int| 0 <= i < 6 implies stem.skip(stem.len() - 6)[i]
                == ".jsonl"@[i] by {
                assert(tail[i] == ".jsonl.ben"@[i]);
                assert(tail[i] == b[b.len() - 10 + i]);
            }
        }
    }
    let c = stem + ".xben"@;
    assert(c.skip(c.len() - 5) =~= ".xben"@);
    assert(c.take(c.len() - 5) =~= stem);
    assert(c[c.len() - 4] == 'x');
    if ends_in(c, ".jsonl.ben"@) {
        assert(c.skip(c.len() - 10)[6] == ".jsonl.ben"@[6]);
    }
    if ends_in(c, ".ben"@) {
        assert(c.skip(c.len() - 4)[0] == ".ben"@[0]);
    }
    let d = stem + ".bendl"@;
    assert(d.skip(d.len() - 6) =~= ".bendl"@);
    assert(d.take(d.len() - 6) =~= stem);
    assert(d[d.len() - 1] == 'l');
    if ends_in(d, ".jsonl.ben"@) {
        assert(d.skip(d.len() - 10)[9] == ".jsonl.ben"@[9]);
    }
    if ends_in(d, ".ben"@) {
        assert(d.skip(d.len() - 4)[3] == ".ben"@[3]);
    }
    if ends_in(d, ".xben"@) {
        assert(d.skip(d.len() - 5)[4] == ".xben"@[4]);
    }
    if ends_in(stem, ".jsonl.ben"@) && !ends_in(stem, ".ben"@) {
        assert(stem.skip(stem.len() - 4) =~= ".ben"@) by {
            assert forall|i: int| 0 <= i < 4 implies stem.skip(stem.len() - 4)[i] == ".ben"@[i] by {
                assert(stem.skip(stem.len() - 10)[6 + i] == ".jsonl.ben"@[6 + i]);
            }
        }
    }
}

/// An output goes under the directory asked for, or else beside the input; its name is the stem of
/// the input's name with the suffix behind it.
pub proof fn law_output_place(
    in_ben_file: Seq<char>,
    name: Seq<char>,
    suffix: Seq<char>,
    dir: Seq<char>,
)
    requires
        file_name_text(in_ben_file) == Some(name),
    ensures
        output_path_text(in_ben_file, suffix, Some(dir)) == join_text(
            dir,
            ben_stem_text(name) + suffix,
        ),
        parent_text(in_ben_file) == Some(dir) && dir.len() > 0 ==> output_path_text(
            in_ben_file,
            suffix,
            None,
        ) == join_text(dir, ben_stem_text(name) + suffix),
        parent_text(in_ben_file) == Some(Seq::<char>::empty()) || parent_text(in_ben_file) is None
            ==> output_path_text(in_ben_file, suffix, None) == ben_stem_text(name) + suffix,
        tally_dir_text(in_ben_file, Some(dir)) == join_text(
            dir,
            ben_stem_text(name) + "_tallies"@,
        ),
        parent_text(in_ben_file) == Some(dir) ==> tally_dir_text(in_ben_file, None) == join_text(
            dir,
            ben_stem_text(name) + "_tallies"@,
        ),
{
}

} // verus!
