//! Splitting a file's lines into heading blocks and parsing each block.
use vstd::prelude::*;
use crate::entry::{block_error, describes, is_titled, parse_single_org_entry, str_views, Heading};
use crate::stamp::ParseError;

verus! {

pub open spec fn starts_heading(l: Seq<char>) -> bool {
    l.len() > 0 && l[0] == '*'
}

/// The blocks of `ls`: a line that starts with `*` opens a new block,
/// unless no line has been taken yet (leading lines join the first block).
pub open spec fn blocks_of(ls: Seq<Seq<char>>) -> Seq<Seq<Seq<char>>>
    decreases ls.len(),
{
    if ls.len() == 0 {
        Seq::empty()
    } else {
        let b = blocks_of(ls.drop_last());
        let l = ls.last();
        if b.len() == 0 {
            seq![seq![l]]
        } else if starts_heading(l) {
            b.push(seq![l])
        } else {
            b.update(b.len() - 1, b.last().push(l))
        }
    }
}

/// The blocks whose first line holds a title, in order.
pub open spec fn titled_blocks(bs: Seq<Seq<Seq<char>>>) -> Seq<Seq<Seq<char>>>
    decreases bs.len(),
{
    if bs.len() == 0 {
        Seq::empty()
    } else {
        let r = titled_blocks(bs.drop_last());
        if bs.last().len() > 0 && is_titled(bs.last()[0]) {
            r.push(bs.last())
        } else {
            r
        }
    }
}

/// The first error among the blocks, in block order.
pub open spec fn first_block_error(bs: Seq<Seq<Seq<char>>>) -> Option<ParseError>
    decreases bs.len(),
{
    if bs.len() == 0 {
        None
    } else if first_block_error(bs.drop_last()) is Some {
        first_block_error(bs.drop_last())
    } else if bs.last().len() > 0 && is_titled(bs.last()[0]) {
        block_error(bs.last())
    } else {
        None
    }
}

pub open spec fn block_views(v: Seq<Vec<String>>) -> Seq<Seq<Seq<char>>> {
    v.map_values(|b: Vec<String>| str_views(b@))
}

/// The lines split into blocks at each heading line.
pub fn split_blocks(lines: &Vec<String>) -> (r: Vec<Vec<String>>)
    ensures
        block_views(r@) == blocks_of(str_views(lines@)),
{
    let mut blocks: Vec<Vec<String>> = Vec::new();
    let mut cur: Vec<String> = Vec::new();
    let mut i: usize = 0;
    assert(str_views(lines@).subrange(0, 0) =~= Seq::<Seq<char>>::empty());
    assert(block_views(blocks@) =~= Seq::<Seq<Seq<char>>>::empty());
    while i < lines.len()
        invariant
            i <= lines@.len(),
            cur@.len() == 0 ==> blocks@.len() == 0,
            i > 0 ==> cur@.len() > 0,
            blocks_of(str_views(lines@).subrange(0, i as int)) == if cur@.len() == 0 {
                block_views(blocks@)
            } else {
                block_views(blocks@).push(str_views(cur@))
            },
        decreases lines@.len() - i,
    {
        let ghost lv = str_views(lines@);
        let ghost pre = lv.subrange(0, i as int);
        assert(lv.subrange(0, i + 1).drop_last() =~= pre);
        assert(lv.subrange(0, i + 1).last() == lines@[i as int]@);
        let line = lines[i].clone();
        let ghost lview = line@;
        let opens = line.as_str().unicode_len() > 0 && line.as_str().get_char(0) == '*';
        assert(opens == starts_heading(lview));
        if opens && cur.len() > 0 {
            let ghost old_blocks = blocks@;
            let ghost old_cur = cur@;
            let done = cur;
            blocks.push(done);
            cur = Vec::new();
            cur.push(line);
            assert(str_views(cur@) =~= seq![lview]);
            assert(block_views(blocks@) =~= block_views(old_blocks).push(str_views(old_cur)));
        } else {
            let ghost old_cur = cur@;
            cur.push(line);
            assert(str_views(cur@) =~= str_views(old_cur).push(lview));
            proof {
                if old_cur.len() == 0 {
                    assert(str_views(cur@) =~= seq![lview]);
                    assert(block_views(blocks@).push(str_views(cur@)) =~= seq![seq![lview]]);
                } else {
                    assert(block_views(blocks@).push(str_views(cur@)) =~= block_views(
                        blocks@,
                    ).push(str_views(old_cur)).update(
                        block_views(blocks@).len() as int,
                        str_views(old_cur).push(lview),
                    ));
                }
            }
        }
        i += 1;
    }
    assert(str_views(lines@).subrange(0, lines@.len() as int) =~= str_views(lines@));
    if cur.len() > 0 {
        let ghost old_blocks = blocks@;
        let ghost old_cur = cur@;
        blocks.push(cur);
        assert(block_views(blocks@) =~= block_views(old_blocks).push(str_views(old_cur)));
    }
    blocks
}

/// The headings of the lines of one file, in order, with the first
/// malformed stamp (in block order) if there is one. Blocks with no title
/// are skipped. On an error, the headings are those of the blocks before
/// the block that failed, as they would have been handed out one by one.
pub fn parse_org_lines(lines: &Vec<String>) -> (r: (Vec<Heading>, Option<ParseError>))
    ensures
        ({
            let bs = blocks_of(str_views(lines@));
            let hs = r.0@;
            match first_block_error(bs) {
                Some(e) => r.1 == Some(e) && exists|i: int|
                    0 <= i < bs.len() && first_block_error(bs.subrange(0, i)) is None
                        && first_block_error(bs.subrange(0, i + 1)) == Some(e) && hs.len()
                        == titled_blocks(bs.subrange(0, i)).len() && forall|k: int|
                        0 <= k < hs.len() ==> describes(
                            #[trigger] hs[k],
                            titled_blocks(bs.subrange(0, i))[k],
                        ),
                None => r.1 is None && hs.len() == titled_blocks(bs).len() && forall|k: int|
                    0 <= k < hs.len() ==> describes(#[trigger] hs[k], titled_blocks(bs)[k]),
            }
        }),
{
    let blocks = split_blocks(lines);
    let ghost bs = block_views(blocks@);
    let mut hs: Vec<Heading> = Vec::new();
    let mut i: usize = 0;
    assert(bs.subrange(0, 0) =~= Seq::<Seq<Seq<char>>>::empty());
    while i < blocks.len()
        invariant
            i <= blocks@.len(),
            bs == block_views(blocks@),
            bs == blocks_of(str_views(lines@)),
            first_block_error(bs.subrange(0, i as int)) is None,
            hs@.len() == titled_blocks(bs.subrange(0, i as int)).len(),
            forall|k: int|
                0 <= k < hs@.len() ==> describes(#[trigger] hs@[k], titled_blocks(
                    bs.subrange(0, i as int),
                )[k]),
        decreases blocks@.len() - i,
    {
        let ghost pre = bs.subrange(0, i as int);
        let ghost next = bs.subrange(0, i + 1);
        assert(next.drop_last() =~= pre);
        assert(next.last() == str_views(blocks@[i as int]@));
        match parse_single_org_entry(&blocks[i]) {
            Ok(Some(h)) => {
                hs.push(h);
            },
            Ok(None) => {},
            Err(e) => {
                proof {
                    assert(next.last().len() > 0 && is_titled(next.last()[0]));
                    assert(block_error(next.last()) == Some(e));
                    assert(first_block_error(next) == Some(e));
                    block_error_stays(bs, i + 1);
                }
                return (hs, Some(e));
            },
        }
        i += 1;
    }
    assert(bs.subrange(0, blocks@.len() as int) =~= bs);
    (hs, None)
}

proof fn block_error_stays(bs: Seq<Seq<Seq<char>>>, k: int)
    requires
        0 <= k <= bs.len(),
        first_block_error(bs.subrange(0, k)) is Some,
    ensures
        first_block_error(bs) == first_block_error(bs.subrange(0, k)),
    decreases bs.len() - k,
{
    if k < bs.len() {
        assert(bs.subrange(0, k + 1).drop_last() =~= bs.subrange(0, k));
        block_error_stays(bs, k + 1);
    } else {
        assert(bs.subrange(0, k) =~= bs);
    }
}

/// A block whose first line is no titled heading line (no marker, or
/// nothing after the markers and one separator) yields no heading and no
/// error: the blocks before and after it give the same
/// headings and the same first error as they would without it.
pub proof fn untitled_block_dropped(
    bs: Seq<Seq<Seq<char>>>,
    b: Seq<Seq<char>>,
    rest: Seq<Seq<Seq<char>>>,
)
    requires
        b.len() > 0,
        !is_titled(b[0]),
    ensures
        titled_blocks(bs.push(b) + rest) == titled_blocks(bs + rest),
        first_block_error(bs.push(b) + rest) == first_block_error(bs + rest),
    decreases rest.len(),
{
    if rest.len() == 0 {
        assert(bs.push(b) + rest =~= bs.push(b));
        assert(bs + rest =~= bs);
        assert(bs.push(b).drop_last() =~= bs);
    } else {
        let r = rest.drop_last();
        untitled_block_dropped(bs, b, r);
        assert((bs.push(b) + rest).drop_last() =~= bs.push(b) + r);
        assert((bs + rest).drop_last() =~= bs + r);
        assert((bs.push(b) + rest).last() == rest.last());
        assert((bs + rest).last() == rest.last());
    }
}

} // verus!
