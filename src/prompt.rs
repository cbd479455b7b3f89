//! The prompts sent to the text-generation service, and how its reply is read.
use crate::cache::Chunk;
use vstd::prelude::*;

verus! {

/// The texts `texts`, each after `mark`, separated by `sep`.
pub open spec fn bulleted(texts: Seq<Seq<char>>, mark: Seq<char>, sep: Seq<char>) -> Seq<char>
    decreases texts.len(),
{
    if texts.len() == 0 {
        Seq::empty()
    } else if texts.len() == 1 {
        mark + texts[0]
    } else {
        bulleted(texts.drop_last(), mark, sep) + sep + mark + texts.last()
    }
}

/// The texts of the chunks at `members`, in that order.
pub open spec fn texts_at(chunks: Seq<Chunk>, members: Seq<usize>) -> Seq<Seq<char>> {
    members.map_values(|i: usize| chunks[i as int].text@)
}

/// The texts of `chunks`, in order.
pub open spec fn texts_of(chunks: Seq<Chunk>) -> Seq<Seq<char>> {
    chunks.map_values(|c: Chunk| c.text@)
}

/// The texts of the chunks at `members`, each after `mark`, separated by `sep`.
fn bullets_at(chunks: &Vec<Chunk>, members: &Vec<usize>, mark: &str, sep: &str) -> (r: String)
    requires
        forall|a: int| 0 <= a < members@.len() ==> members@[a] < chunks@.len(),
    ensures
        r@ == bulleted(texts_at(chunks@, members@), mark@, sep@),
{
    let ghost ts = texts_at(chunks@, members@);
    let mut out = String::new();
    let mut a: usize = 0;
    while a < members.len()
        invariant
            ts == texts_at(chunks@, members@),
            forall|b: int| 0 <= b < members@.len() ==> members@[b] < chunks@.len(),
            a <= members@.len(),
            out@ == bulleted(ts.take(a as int), mark@, sep@),
        decreases members.len() - a,
    {
        if a > 0 {
            out.append(sep);
        }
        out.append(mark);
        out.append(chunks[members[a]].text.as_str());
        assert(ts.take(a + 1).drop_last() =~= ts.take(a as int));
        proof {
            if a == 0 {
                assert(out@ =~= mark@ + ts.take(1)[0]);
            } else {
                assert(out@ =~= bulleted(ts.take(a as int), mark@, sep@) + sep@ + mark@ + ts.take(
                    a + 1,
                ).last());
            }
        }
        a = a + 1;
    }
    assert(ts.take(members@.len() as int) =~= ts);
    out
}

/// The positions `0..n`.
fn all_positions(n: usize) -> (r: Vec<usize>)
    ensures
        r@ == Seq::new(n as nat, |i: int| i as usize),
{
    let mut r: Vec<usize> = Vec::new();
    let mut i: usize = 0;
    while i < n
        invariant
            i <= n,
            r@ == Seq::new(i as nat, |t: int| t as usize),
        decreases n - i,
    {
        r.push(i);
        i = i + 1;
        assert(r@ =~= Seq::new(i as nat, |t: int| t as usize));
    }
    r
}

/// The texts of all chunks, each after a bullet, separated by a blank line.
fn note_list(chunks: &Vec<Chunk>) -> (r: String)
    ensures
        r@ == bulleted(texts_of(chunks@), "\u{2022} "@, "\n\n"@),
{
    let all = all_positions(chunks.len());
    let r = bullets_at(chunks, &all, "\u{2022} ", "\n\n");
    assert(texts_at(chunks@, all@) =~= texts_of(chunks@));
    r
}

/// The prompt asking what the best matches of a query have in common.
pub fn query_prompt(top: &Vec<Chunk>) -> (r: String)
    ensures
        r@ == "These ideas appear related:\n\n"@ + bulleted(texts_of(top@), "\u{2022} "@, "\n\n"@)
            + "\n\nDescribe their connection or common theme."@,
{
    let mut out = String::new();
    out.append("These ideas appear related:\n\n");
    let notes = note_list(top);
    out.append(notes.as_str());
    out.append("\n\nDescribe their connection or common theme.");
    out
}

/// The prompt asking for a summary of the notes on `topic`.
pub fn explore_prompt(topic: &str, top: &Vec<Chunk>) -> (r: String)
    ensures
        r@ == "Based on the following notes, summarize what I think or understand about '"@
            + topic@ + "':\n\n"@ + bulleted(texts_of(top@), "\u{2022} "@, "\n\n"@),
{
    let mut out = String::new();
    out.append("Based on the following notes, summarize what I think or understand about '");
    out.append(topic);
    out.append("':\n\n");
    let notes = note_list(top);
    out.append(notes.as_str());
    out
}

/// The prompt asking to answer `question` from the notes.
pub fn chat_prompt(question: &str, top: &Vec<Chunk>) -> (r: String)
    ensures
        r@ == "Answer the following question based on my notes below.\nIf not enough info is present, say so.\n\nNotes:\n"@
            + bulleted(texts_of(top@), "\u{2022} "@, "\n\n"@) + "\n\nQuestion: "@ + question@
            + "\n\nAnswer:"@,
{
    let mut out = String::new();
    out.append(
        "Answer the following question based on my notes below.\nIf not enough info is present, say so.\n\nNotes:\n",
    );
    let notes = note_list(top);
    out.append(notes.as_str());
    out.append("\n\nQuestion: ");
    out.append(question);
    out.append("\n\nAnswer:");
    out
}

/// The number of members of a cluster shown as its sample.
pub const SAMPLE_SIZE: usize = 5;

/// The first members of a cluster, at most `SAMPLE_SIZE` of them.
pub fn sample_members(group: &Vec<usize>) -> (r: Vec<usize>)
    ensures
        r@ == group@.take(if group@.len() < SAMPLE_SIZE { group@.len() as int } else { SAMPLE_SIZE as int }),
{
    let n = if group.len() < SAMPLE_SIZE {
        group.len()
    } else {
        SAMPLE_SIZE
    };
    let mut r: Vec<usize> = Vec::new();
    let mut i: usize = 0;
    while i < n
        invariant
            n <= group@.len(),
            i <= n,
            r@ == group@.take(i as int),
        decreases n - i,
    {
        r.push(group[i]);
        i = i + 1;
        assert(r@ =~= group@.take(i as int));
    }
    r
}

/// The prompt asking for a short label of a cluster, shown through the texts
/// of its first members; a cluster without members gives an empty sample.
pub fn label_prompt(chunks: &Vec<Chunk>, group: &Vec<usize>) -> (r: String)
    requires
        forall|a: int| 0 <= a < group@.len() ==> group@[a] < chunks@.len(),
    ensures
        r@ == "Here are some notes:\n\n"@ + bulleted(
            texts_at(
                chunks@,
                group@.take(
                    if group@.len() < SAMPLE_SIZE {
                        group@.len() as int
                    } else {
                        SAMPLE_SIZE as int
                    },
                ),
            ),
            "- "@,
            "\n"@,
        ) + "\n\nWhat common theme or topic do they share? Respond with just a short label."@,
{
    let sample = sample_members(group);
    let mut out = String::new();
    out.append("Here are some notes:\n\n");
    let notes = bullets_at(chunks, &sample, "- ", "\n");
    out.append(notes.as_str());
    out.append("\n\nWhat common theme or topic do they share? Respond with just a short label.");
    out
}

/// The text of a generation reply: its `response` field, or a placeholder
/// where the reply has none.
pub fn reply_text(response: Option<String>) -> (r: String)
    ensures
        r@ == match response {
            Some(t) => t@,
            None => "[No response]"@,
        },
{
    match response {
        Some(t) => t,
        None => String::from_str("[No response]"),
    }
}

} // verus!
