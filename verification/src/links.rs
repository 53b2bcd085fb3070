//! Naming the links that point to the files of a group.

use crate::format::{decimal, decimal_text, digit};
use crate::lex::same_bytes;
use crate::path::{
    components, extension_of, file_name_of, join, last_dot, lemma_last_dot, lemma_stem_alone,
    lemma_stem_and_extension, path_views, same_path, split_name, stem_of, FilePath, DOT,
};
use crate::text::{lemma_encode_add, lossy_text, to_string_lossy};
use vstd::prelude::*;
use vstd::slice::slice_to_vec;
use vstd::utf8::{
    decode_utf8, decode_utf8_encode_utf8, encode_utf8, encode_utf8_decode_utf8,
    encode_utf8_valid_utf8, is_char_boundary_iff_not_is_continuation_byte, pop_first_scalar,
    valid_utf8, valid_utf8_split,
};

verus! {

/// The text of a link name other than the name itself: its stem, a number, its
/// extension.
pub open spec fn numbered(name: Seq<u8>, n: nat) -> Seq<char> {
    lossy_text(stem_of(name)) + "_"@ + decimal(n) + match extension_of(name) {
        Some(extension) => "."@ + lossy_text(extension),
        None => Seq::empty(),
    }
}

/// The same where the name is UTF-8.
pub open spec fn numbered_text(name: Seq<u8>, n: nat) -> Seq<char> {
    decode_utf8(stem_of(name)) + "_"@ + decimal(n) + match extension_of(name) {
        Some(extension) => "."@ + decode_utf8(extension),
        None => Seq::empty(),
    }
}

/// The names to try for a link to a file called `name`: the name itself, then the
/// name with the numbers from one on.
pub open spec fn link_name_of(name: Seq<u8>, n: nat) -> Seq<u8> {
    if n == 0 {
        name
    } else {
        encode_utf8(numbered(name, n))
    }
}

/// Whether a link to `src` is among the links with these targets.
pub open spec fn links_to(targets: Seq<FilePath>, src: Seq<u8>) -> bool {
    exists|i: int| 0 <= i < targets.len() && same_path((#[trigger] targets[i])@, src)
}

proof fn lemma_split_utf8(name: Seq<u8>, at: int)
    requires
        valid_utf8(name),
        0 <= at < name.len(),
        name[at] == DOT,
    ensures
        valid_utf8(name.take(at)),
        valid_utf8(name.skip(at + 1)),
{
    is_char_boundary_iff_not_is_continuation_byte(name, at);
    valid_utf8_split(name, at);
    assert(name.subrange(0, at) =~= name.take(at));
    let tail = name.subrange(at, name.len() as int);
    assert(tail[0] == DOT);
    assert(pop_first_scalar(tail) =~= name.skip(at + 1));
}

/// The name to try for a link to a file called `name` after `attempt` others: of a name
/// that is UTF-8, its stem, the number and its extension. No later name is the first one
/// again.
pub fn link_name(name: &[u8], attempt: u64) -> (r: Vec<u8>)
    ensures
        r@ == link_name_of(name@, attempt as nat),
        attempt > 0 ==> r@ != name@,
        attempt > 0 && valid_utf8(name@) ==> r@ == encode_utf8(
            numbered_text(name@, attempt as nat),
        ),
{
    if attempt == 0 {
        return slice_to_vec(name);
    }
    let (stem, extension) = split_name(name);
    let mut text = to_string_lossy(stem.as_slice());
    let ghost first = text@;
    text.append("_");
    text.append(decimal_text(attempt).as_str());
    let ghost front = text@;
    let ghost mut back: Seq<char> = Seq::empty();
    let ghost mut back_text: Seq<char> = Seq::empty();
    if let Some(extension) = &extension {
        text.append(".");
        let more = to_string_lossy(extension.as_slice());
        text.append(more.as_str());
        proof {
            back = "."@ + more@;
            back_text = more@;
        }
    }
    proof {
        assert(text@ =~= numbered(name@, attempt as nat));
        lemma_last_dot(name@);
        encode_utf8_valid_utf8(text@);
        if valid_utf8(name@) {
            let at = last_dot(name@);
            if at > 0 {
                lemma_split_utf8(name@, at);
                decode_utf8_encode_utf8(name@.take(at));
                decode_utf8_encode_utf8(name@.skip(at + 1));
                lemma_encode_add("."@, back_text);
            } else {
                decode_utf8_encode_utf8(name@);
            }
            reveal_strlit("_");
            reveal_strlit(".");
            lemma_decimal_len(attempt as nat);
            lemma_encode_len("_"@);
            lemma_encode_len("."@);
            lemma_encode_len(decimal(attempt as nat));
            lemma_encode_add(first, "_"@);
            lemma_encode_add(first + "_"@, decimal(attempt as nat));
            lemma_encode_add(front, back);
            assert(text@ =~= front + back);
            assert(encode_utf8(text@).len() > name@.len());
            assert(text@ =~= numbered_text(name@, attempt as nat));
        }
    }
    slice_to_vec(text.as_str().as_bytes())
}

proof fn lemma_encode_len(s: Seq<char>)
    ensures
        encode_utf8(s).len() >= s.len(),
    decreases s.len(),
{
    if s.len() > 0 {
        lemma_encode_len(s.drop_first());
    }
}

proof fn lemma_decimal_len(n: nat)
    ensures
        decimal(n).len() > 0,
{
}

/// Numbers have different decimal texts.
pub proof fn lemma_decimal_injective(m: nat, n: nat)
    requires
        decimal(m) == decimal(n),
    ensures
        m == n,
    decreases m,
{
    let a = decimal(m);
    let b = decimal(n);
    lemma_digit(m % 10);
    lemma_digit(n % 10);
    assert(m < 10 ==> a == seq![digit(m)]);
    assert(n < 10 ==> b == seq![digit(n)]);
    assert(m >= 10 ==> a == decimal(m / 10).push(digit(m % 10)));
    assert(n >= 10 ==> b == decimal(n / 10).push(digit(n % 10)));
    lemma_decimal_len(m / 10);
    lemma_decimal_len(n / 10);
    assert(m < 10 ==> m % 10 == m);
    assert(n < 10 ==> n % 10 == n);
    assert(a.last() == digit(m % 10));
    assert(b.last() == digit(n % 10));
    assert(m % 10 == n % 10);
    if m >= 10 && n >= 10 {
        assert(a.drop_last() =~= decimal(m / 10));
        assert(b.drop_last() =~= decimal(n / 10));
        lemma_decimal_injective(m / 10, n / 10);
    } else {
        assert(a.len() == b.len());
    }
}

proof fn lemma_digit(n: nat)
    requires
        n < 10,
    ensures
        digit(n) as u32 == 0x30 + n,
{
}

/// No numbered name comes twice.
pub proof fn lemma_link_names_differ(name: Seq<u8>, m: nat, n: nat)
    requires
        0 < m < n,
    ensures
        link_name_of(name, m) != link_name_of(name, n),
{
    let x = numbered(name, m);
    let y = numbered(name, n);
    if encode_utf8(x) == encode_utf8(y) {
        encode_utf8_decode_utf8(x);
        encode_utf8_decode_utf8(y);
        assert(x == y);
        let front = lossy_text(stem_of(name)) + "_"@;
        let back = match extension_of(name) {
            Some(extension) => "."@ + lossy_text(extension),
            None => Seq::empty(),
        };
        let a = decimal(m);
        let b = decimal(n);
        assert(x.len() == front.len() + a.len() + back.len());
        assert(y.len() == front.len() + b.len() + back.len());
        assert(a =~= x.subrange(front.len() as int, (front.len() + a.len()) as int));
        assert(b =~= y.subrange(front.len() as int, (front.len() + b.len()) as int));
        lemma_decimal_injective(m, n);
    }
}

/// Looking for a free name ends: whatever finite set of names is taken, a numbered
/// name is free, and its number is at most one more than the size of the set.
pub proof fn lemma_free_link_name(name: Seq<u8>, taken: Set<Seq<u8>>)
    requires
        taken.finite(),
    ensures
        exists|n: nat| 0 < n <= taken.len() + 1 && !taken.contains(#[trigger] link_name_of(name, n)),
{
    if forall|n: nat|
        0 < n <= taken.len() + 1 ==> taken.contains(#[trigger] link_name_of(name, n)) {
        let names = Seq::new(taken.len() + 1, |i: int| link_name_of(name, (i + 1) as nat));
        assert(names.no_duplicates()) by {
            assert forall|i: int, j: int|
                0 <= i < names.len() && 0 <= j < names.len() && i != j implies names[i]
                != names[j] by {
                if i < j {
                    lemma_link_names_differ(name, (i + 1) as nat, (j + 1) as nat);
                } else {
                    lemma_link_names_differ(name, (j + 1) as nat, (i + 1) as nat);
                }
            }
        }
        names.unique_seq_to_set();
        assert(names.to_set().subset_of(taken)) by {
            assert forall|x: Seq<u8>| names.to_set().contains(x) implies taken.contains(x) by {
                let i = choose|i: int| 0 <= i < names.len() && names[i] == x;
                assert(taken.contains(link_name_of(name, (i + 1) as nat)));
            }
        }
        vstd::set_lib::lemma_len_subset(names.to_set(), taken);
        assert(false);
    }
}

/// A search for a free name in a directory for a link to a file called `name`.
pub struct LinkSearch {
    pub dst_dir: FilePath,
    pub name: Vec<u8>,
    pub attempt: u64,
}

/// Begins to look for a name in `dst_dir` for a link to `src`, where `targets` are
/// the targets of the links that are there; there is nothing to do where one of them
/// is `src`.
pub fn symlink_to_dir(src: &FilePath, dst_dir: &FilePath, targets: &Vec<FilePath>) -> (r: Option<
    LinkSearch,
>)
    requires
        links_to(targets@, src@) || file_name_of(src@) is Some,
    ensures
        match r {
            None => links_to(targets@, src@),
            Some(search) => {
                &&& !links_to(targets@, src@)
                &&& search.dst_dir@ == dst_dir@
                &&& file_name_of(src@) == Some(search.name@)
                &&& search.attempt == 0
            },
        },
{
    let mut i: usize = 0;
    while i < targets.len()
        invariant
            i <= targets@.len(),
            forall|j: int| 0 <= j < i ==> !same_path((#[trigger] targets@[j])@, src@),
        decreases targets@.len() - i,
    {
        if targets[i].same(src) {
            return None;
        }
        i = i + 1;
    }
    match src.file_name() {
        Some(name) => Some(LinkSearch { dst_dir: dst_dir.clone(), name, attempt: 0 }),
        None => None,
    }
}

impl LinkSearch {
    /// The path to try.
    pub fn candidate(&self) -> (r: FilePath)
        ensures
            r@ == join(self.dst_dir@, link_name_of(self.name@, self.attempt as nat)),
    {
        let name = link_name(self.name.as_slice(), self.attempt);
        self.dst_dir.join(name.as_slice())
    }

    /// Goes on where the path to try is taken: whether there is another one.
    pub fn advance(&mut self) -> (r: bool)
        ensures
            final(self).dst_dir@ == old(self).dst_dir@,
            final(self).name@ == old(self).name@,
            r == (old(self).attempt < u64::MAX),
            r ==> final(self).attempt == old(self).attempt + 1,
            !r ==> final(self).attempt == old(self).attempt,
    {
        if self.attempt < u64::MAX {
            self.attempt = self.attempt + 1;
            true
        } else {
            false
        }
    }
}

/// Whether a name is among those that are taken.
pub open spec fn name_taken(taken: Seq<Vec<u8>>, name: Seq<u8>) -> bool {
    exists|i: int| 0 <= i < taken.len() && (#[trigger] taken[i])@ == name
}

fn is_taken(taken: &Vec<Vec<u8>>, name: &Vec<u8>) -> (r: bool)
    ensures
        r == name_taken(taken@, name@),
{
    let mut i: usize = 0;
    while i < taken.len()
        invariant
            i <= taken@.len(),
            forall|j: int| 0 <= j < i ==> (#[trigger] taken@[j])@ != name@,
        decreases taken@.len() - i,
    {
        if same_bytes(taken[i].as_slice(), name.as_slice()) {
            assert(taken@[i as int]@ == name@);
            return true;
        }
        i = i + 1;
    }
    false
}

proof fn lemma_some_name_free(name: Seq<u8>, taken: Seq<Vec<u8>>)
    requires
        taken.len() < u64::MAX,
    ensures
        exists|n: nat| n <= u64::MAX && !name_taken(taken, #[trigger] link_name_of(name, n)),
{
    let names = taken.map_values(|v: Vec<u8>| v@);
    names.lemma_cardinality_of_set();
    lemma_free_link_name(name, names.to_set());
    let n = choose|n: nat|
        0 < n <= names.to_set().len() + 1 && !names.to_set().contains(
            #[trigger] link_name_of(name, n),
        );
    if name_taken(taken, link_name_of(name, n)) {
        let i = choose|i: int|
            0 <= i < taken.len() && (#[trigger] taken[i])@ == link_name_of(name, n);
        assert(names[i] == link_name_of(name, n));
    }
}

impl LinkSearch {
    /// Goes on to the next name that is not taken, where `taken` are the names of all that
    /// is in the directory, links to nothing too: whether there is one. There is unless
    /// the directory is as full as a number can tell.
    pub fn skip_taken(&mut self, taken: &Vec<Vec<u8>>) -> (r: bool)
        ensures
            final(self).dst_dir@ == old(self).dst_dir@,
            final(self).name@ == old(self).name@,
            old(self).attempt <= final(self).attempt,
            forall|n: nat|
                old(self).attempt <= n < final(self).attempt ==> name_taken(
                    taken@,
                    #[trigger] link_name_of(old(self).name@, n),
                ),
            r == !name_taken(
                taken@,
                link_name_of(old(self).name@, final(self).attempt as nat),
            ),
            !r ==> final(self).attempt == u64::MAX,
            old(self).attempt == 0 && taken@.len() < u64::MAX ==> r,
    {
        let ghost name = self.name@;
        let ghost dir = self.dst_dir@;
        let ghost start = self.attempt;
        loop
            invariant
                self.dst_dir@ == dir,
                self.name@ == name,
                start <= self.attempt,
                dir == old(self).dst_dir@,
                name == old(self).name@,
                start == old(self).attempt,
                forall|n: nat|
                    start <= n < self.attempt ==> name_taken(
                        taken@,
                        #[trigger] link_name_of(name, n),
                    ),
            decreases u64::MAX - self.attempt,
        {
            let candidate = link_name(self.name.as_slice(), self.attempt);
            if !is_taken(taken, &candidate) {
                return true;
            }
            if !self.advance() {
                proof {
                    if start == 0 && taken@.len() < u64::MAX {
                        lemma_some_name_free(name, taken@);
                        let n = choose|n: nat|
                            n <= u64::MAX && !name_taken(taken@, #[trigger] link_name_of(name, n));
                        assert(n == u64::MAX);
                    }
                }
                return false;
            }
        }
    }
}

/// The links to a file, of links that are given with their targets.
pub open spec fn stale_links(links: Seq<(FilePath, FilePath)>, target: Seq<u8>) -> Seq<Seq<u8>>
    decreases links.len(),
{
    if links.len() == 0 {
        Seq::empty()
    } else {
        let front = stale_links(links.drop_last(), target);
        if same_path(links.last().1@, target) {
            front.push(links.last().0@)
        } else {
            front
        }
    }
}

/// Picks the links to a file, of links that are given with their targets.
pub fn links_to_remove(links: &Vec<(FilePath, FilePath)>, target: &FilePath) -> (r: Vec<FilePath>)
    ensures
        path_views(r@) == stale_links(links@, target@),
{
    let mut r: Vec<FilePath> = Vec::new();
    let mut i: usize = 0;
    assert(links@.take(0) =~= Seq::empty());
    assert(path_views(r@) =~= Seq::empty());
    while i < links.len()
        invariant
            i <= links@.len(),
            path_views(r@) == stale_links(links@.take(i as int), target@),
        decreases links@.len() - i,
    {
        let ghost before = path_views(r@);
        proof {
            assert(links@.take(i + 1).drop_last() =~= links@.take(i as int));
            assert(links@.take(i + 1).last() == links@[i as int]);
        }
        if links[i].1.same(target) {
            r.push(links[i].0.clone());
            assert(path_views(r@) =~= before.push(links@[i as int].0@));
        }
        i = i + 1;
    }
    assert(links@.take(i as int) =~= links@);
    r
}

/// The links that are taken away are those to the file, in their order.
pub proof fn lemma_stale_links(links: Seq<(FilePath, FilePath)>, target: Seq<u8>)
    ensures
        stale_links(links, target) == links.filter(
            |l: (FilePath, FilePath)| components(l.1@) == components(target),
        ).map_values(|l: (FilePath, FilePath)| l.0@),
    decreases links.len(),
{
    reveal(Seq::filter);
    let p = |l: (FilePath, FilePath)| components(l.1@) == components(target);
    let f = |l: (FilePath, FilePath)| l.0@;
    if links.len() > 0 {
        let front = links.drop_last();
        lemma_stale_links(front, target);
        if p(links.last()) {
            assert(front.filter(p).push(links.last()).map_values(f) =~= front.filter(p).map_values(
                f,
            ).push(links.last().0@));
        }
    } else {
        assert(links.filter(p).map_values(f) =~= Seq::empty());
    }
}

/// A file is linked already exactly where one of the links goes to it.
pub proof fn lemma_links_to(targets: Seq<FilePath>, src: Seq<u8>)
    ensures
        links_to(targets, src) <==> exists|i: int|
            0 <= i < targets.len() && components((#[trigger] targets[i])@) == components(src),
{
    if links_to(targets, src) {
        let i = choose|i: int| 0 <= i < targets.len() && same_path((#[trigger] targets[i])@, src);
        assert(components(targets[i]@) == components(src));
    }
    if exists|i: int|
        0 <= i < targets.len() && components((#[trigger] targets[i])@) == components(src) {
        let i = choose|i: int|
            0 <= i < targets.len() && components((#[trigger] targets[i])@) == components(src);
        assert(same_path(targets[i]@, src));
    }
}

/// A link has the name of its file, or that name with a number behind its stem: of a name
/// with an extension the number comes before the full stop.
pub proof fn lemma_link_name(stem: Seq<u8>, extension: Seq<u8>, n: nat)
    requires
        stem.len() > 0,
        forall|i: int| 0 <= i < extension.len() ==> extension[i] != 0x2e,
        n > 0,
    ensures
        ({
            let name = stem + seq![0x2eu8] + extension;
            &&& link_name_of(name, 0) == name
            &&& link_name_of(name, n) == encode_utf8(
                lossy_text(stem) + "_"@ + decimal(n) + ("."@ + lossy_text(extension)),
            )
            &&& numbered_text(name, n) == decode_utf8(stem) + "_"@ + decimal(n) + ("."@
                + decode_utf8(extension))
        }),
{
    lemma_stem_and_extension(stem, extension);
}

/// The same of a name without an extension: the number comes last.
pub proof fn lemma_link_name_alone(name: Seq<u8>, n: nat)
    requires
        forall|i: int| 0 < i < name.len() ==> name[i] != 0x2e,
        n > 0,
    ensures
        link_name_of(name, 0) == name,
        link_name_of(name, n) == encode_utf8(lossy_text(name) + "_"@ + decimal(n)),
        numbered_text(name, n) == decode_utf8(name) + "_"@ + decimal(n),
{
    lemma_stem_alone(name);
    assert(numbered(name, n) =~= lossy_text(name) + "_"@ + decimal(n));
    assert(numbered_text(name, n) =~= decode_utf8(name) + "_"@ + decimal(n));
}

/// A name is taken exactly where it is among the names, byte for byte.
pub proof fn lemma_name_taken(taken: Seq<Vec<u8>>, name: Seq<u8>)
    ensures
        name_taken(taken, name) <==> taken.map_values(|v: Vec<u8>| v@).contains(name),
{
    let f = |v: Vec<u8>| v@;
    let names = taken.map_values(f);
    if name_taken(taken, name) {
        let i = choose|i: int| 0 <= i < taken.len() && (#[trigger] taken[i])@ == name;
        assert(names[i] == name);
    }
    if names.contains(name) {
        let i = choose|i: int| 0 <= i < names.len() && names[i] == name;
        assert(taken[i]@ == name);
    }
}

} // verus!
