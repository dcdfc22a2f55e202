//! The persistence codec: each task on one line, every field either
//! fixed-form (identifier, flag) or length-prefixed (title, description), so
//! that decoding restores exactly what was encoded.

use vstd::prelude::*;

use crate::digits::{
    dec_of, dec_val, lemma_dec_of_val, lemma_take_digits_prepend, parse_decimal, take_digits,
    u16_to_decimal, usize_to_decimal,
};
use crate::todolist::{wf_tasks, Task, TaskList, TaskView};

verus! {

/// The one-character completion flag.
pub open spec fn flag_of(b: bool) -> char {
    if b {
        '1'
    } else {
        '0'
    }
}

/// One task as text: identifier, flag, length-prefixed title, length-prefixed
/// description, each separated by one space, ended by a line break.
pub open spec fn enc_task(t: TaskView) -> Seq<char> {
    dec_of(t.num as nat) + seq![' ', flag_of(t.complete), ' '] + dec_of(t.task.len())
        + seq![' '] + t.task + seq![' '] + dec_of(t.description.len()) + seq![' ']
        + t.description + seq!['\n']
}

/// A whole list as text: the tasks one after another.
pub open spec fn enc_tasks(s: Seq<TaskView>) -> Seq<char>
    decreases s.len(),
{
    if s.len() == 0 {
        Seq::empty()
    } else {
        enc_task(s[0]) + enc_tasks(s.drop_first())
    }
}

/// Encoding appends task by task.
proof fn lemma_enc_tasks_snoc(s: Seq<TaskView>, t: TaskView)
    ensures
        enc_tasks(s.push(t)) == enc_tasks(s) + enc_task(t),
    decreases s.len(),
{
    if s.len() == 0 {
        assert(s.push(t)[0] == t);
        assert(s.push(t).drop_first() =~= Seq::<TaskView>::empty());
        assert(enc_tasks(s.push(t).drop_first()) =~= Seq::<char>::empty());
        assert(enc_tasks(s.push(t)) =~= enc_task(t) + Seq::<char>::empty());
        assert(enc_tasks(s.push(t)) =~= enc_tasks(s) + enc_task(t));
    } else {
        assert(s.push(t)[0] == s[0]);
        assert(s.push(t).drop_first() =~= s.drop_first().push(t));
        lemma_enc_tasks_snoc(s.drop_first(), t);
        assert(enc_tasks(s.push(t)) =~= enc_tasks(s) + enc_task(t));
    }
}

/// Reads one encoded task from the front of `s`: its fields, and what
/// follows. Returns nothing when `s` does not start with a task.
pub open spec fn parse_task(s: Seq<char>) -> Option<(TaskView, Seq<char>)> {
    let num_d = take_digits(s);
    if num_d.0.len() == 0 || dec_val(num_d.0) > u16::MAX {
        None
    } else {
        let r1 = num_d.1;
        if r1.len() < 1 || r1[0] != ' ' {
            None
        } else {
            let r2 = r1.drop_first();
            if r2.len() < 2 || !(r2[0] == '0' || r2[0] == '1') || r2[1] != ' ' {
                None
            } else {
                let r3 = r2.skip(2);
                let tl_d = take_digits(r3);
                if tl_d.0.len() == 0 {
                    None
                } else {
                    let tlen = dec_val(tl_d.0);
                    let r4 = tl_d.1;
                    if r4.len() < 1 || r4[0] != ' ' {
                        None
                    } else {
                        let r5 = r4.drop_first();
                        if r5.len() < tlen + 1 || r5[tlen as int] != ' ' {
                            None
                        } else {
                            let r6 = r5.skip(tlen as int + 1);
                            let dl_d = take_digits(r6);
                            if dl_d.0.len() == 0 {
                                None
                            } else {
                                let dlen = dec_val(dl_d.0);
                                let r7 = dl_d.1;
                                if r7.len() < 1 || r7[0] != ' ' {
                                    None
                                } else {
                                    let r8 = r7.drop_first();
                                    if r8.len() < dlen + 1 || r8[dlen as int] != '\n' {
                                        None
                                    } else {
                                        Some(
                                            (
                                                TaskView {
                                                    complete: r2[0] == '1',
                                                    num: dec_val(num_d.0) as u16,
                                                    task: r5.take(tlen as int),
                                                    description: r8.take(dlen as int),
                                                },
                                                r8.skip(dlen as int + 1),
                                            ),
                                        )
                                    }
                                }
                            }
                        }
                    }
                }
            }
        }
    }
}

/// Reads a whole encoded list: the tasks one after another, to the end of the
/// text. Returns nothing on any malformed remainder.
pub open spec fn parse_tasks(s: Seq<char>) -> Option<Seq<TaskView>>
    decreases s.len(),
{
    if s.len() == 0 {
        Some(Seq::<TaskView>::empty())
    } else {
        match parse_task(s) {
            None => None,
            Some(pr) => if pr.1.len() < s.len() {
                match parse_tasks(pr.1) {
                    None => None,
                    Some(tail) => Some(seq![pr.0] + tail),
                }
            } else {
                None
            },
        }
    }
}

/// Reading one task back from its encoding restores it exactly, whatever
/// follows.
#[verifier::rlimit(100)]
proof fn lemma_parse_enc_task(t: TaskView, rest: Seq<char>)
    ensures
        parse_task(enc_task(t) + rest) == Some((t, rest)),
{
    let s = enc_task(t) + rest;
    let nd = dec_of(t.num as nat);
    let td = dec_of(t.task.len());
    let dd = dec_of(t.description.len());
    lemma_dec_of_val(t.num as nat);
    lemma_dec_of_val(t.task.len());
    lemma_dec_of_val(t.description.len());

    let tail1 = seq![' ', flag_of(t.complete), ' '] + td + seq![' '] + t.task + seq![' '] + dd
        + seq![' '] + t.description + seq!['\n'] + rest;
    assert(s =~= nd + tail1);
    assert(tail1[0] == ' ');
    lemma_take_digits_prepend(nd, tail1);
    let num_d = take_digits(s);
    assert(num_d == (nd, tail1));
    assert(dec_val(nd) == t.num as nat);

    let r1 = tail1;
    let r2 = r1.drop_first();
    assert(r2[0] == flag_of(t.complete));
    assert(r2[1] == ' ');
    assert(r2[0] == '1' <==> t.complete);

    let tail3 = seq![' '] + t.task + seq![' '] + dd + seq![' '] + t.description + seq!['\n']
        + rest;
    assert(r2.skip(2) =~= td + tail3);
    assert(tail3[0] == ' ');
    lemma_take_digits_prepend(td, tail3);
    assert(take_digits(r2.skip(2)) == (td, tail3));
    let tlen = dec_val(td);
    assert(tlen == t.task.len());

    let tail4 = seq![' '] + dd + seq![' '] + t.description + seq!['\n'] + rest;
    let r5 = tail3.drop_first();
    assert(r5 =~= t.task + tail4);
    assert(r5.len() == t.task.len() + tail4.len());
    assert(r5[tlen as int] == tail4[0]);
    assert(r5[tlen as int] == ' ');
    assert(r5.take(tlen as int) =~= t.task);

    let tail5 = seq![' '] + t.description + seq!['\n'] + rest;
    assert(r5.skip(tlen as int + 1) =~= dd + tail5);
    assert(tail5[0] == ' ');
    lemma_take_digits_prepend(dd, tail5);
    assert(take_digits(r5.skip(tlen as int + 1)) == (dd, tail5));
    let dlen = dec_val(dd);
    assert(dlen == t.description.len());

    let r8 = tail5.drop_first();
    assert(r8 =~= t.description + seq!['\n'] + rest);
    assert(r8.len() == t.description.len() + 1 + rest.len());
    assert(r8[dlen as int] == '\n');
    assert(r8.take(dlen as int) =~= t.description);
    assert(r8.skip(dlen as int + 1) =~= rest);

    let parsed = parse_task(s).unwrap().0;
    assert(parsed.complete == t.complete);
    assert(parsed.num == t.num);
    assert(parsed.task == t.task);
    assert(parsed.description == t.description);
    assert(parsed == t);
    assert(parse_task(s).unwrap().1 == rest);
}

/// One encoded task is never empty.
proof fn lemma_enc_task_len(t: TaskView)
    ensures
        enc_task(t).len() >= 1,
{
}

/// Round trip: decoding an encoded task sequence restores it exactly.
pub proof fn lemma_round_trip(v: Seq<TaskView>)
    ensures
        parse_tasks(enc_tasks(v)) == Some(v),
    decreases v.len(),
{
    if v.len() == 0 {
        assert(enc_tasks(v).len() == 0);
    } else {
        let rest = enc_tasks(v.drop_first());
        assert(enc_tasks(v) == enc_task(v[0]) + rest);
        lemma_parse_enc_task(v[0], rest);
        lemma_enc_task_len(v[0]);
        assert(rest.len() < enc_tasks(v).len());
        lemma_round_trip(v.drop_first());
        assert(seq![v[0]] + v.drop_first() =~= v);
    }
}

/// Writes one task's encoding onto `out`.
fn encode_task(t: &Task, out: &mut String)
    ensures
        final(out)@ == old(out)@ + enc_task(t@),
{
    let num_s = u16_to_decimal(t.num);
    out.append(num_s.as_str());
    out.append(" ");
    if t.complete {
        out.append("1");
    } else {
        out.append("0");
    }
    out.append(" ");
    let tl = t.task.as_str().unicode_len();
    let tl_s = usize_to_decimal(tl);
    out.append(tl_s.as_str());
    out.append(" ");
    out.append(t.task.as_str());
    out.append(" ");
    let dl = t.description.as_str().unicode_len();
    let dl_s = usize_to_decimal(dl);
    out.append(dl_s.as_str());
    out.append(" ");
    out.append(t.description.as_str());
    out.append("\n");
    proof {
        reveal_strlit(" ");
        reveal_strlit("0");
        reveal_strlit("1");
        reveal_strlit("\n");
        assert(out@ =~= old(out)@ + enc_task(t@));
    }
}

/// Reads one encoded task starting at `start`: the task and the index just
/// after it, or nothing when the text there is not a task.
#[verifier::rlimit(100)]
fn parse_task_at(s: &str, n: usize, start: usize) -> (r: Option<(Task, usize)>)
    requires
        s@.len() == n as nat,
        start <= n,
    ensures
        (r is None) <==> (parse_task(s@.skip(start as int)) is None),
        r is Some ==> start < r.unwrap().1 <= n && parse_task(s@.skip(start as int)) == Some(
            (r.unwrap().0@, s@.skip(r.unwrap().1 as int)),
        ),
{
    let ghost rem = s@.skip(start as int);

    // identifier
    let (end1, num_acc, ovf1) = parse_decimal(s, n, start);
    if end1 == start {
        proof {
            assert(take_digits(rem).0.len() == 0);
        }
        return None;
    }
    if ovf1 || num_acc > 65535 {
        proof {
            assert(u16::MAX < usize::MAX);
            assert(dec_val(take_digits(rem).0) > u16::MAX);
        }
        return None;
    }
    // the space after it
    if end1 == n {
        proof {
            assert(take_digits(rem).1.len() == 0);
        }
        return None;
    }
    let c1 = s.get_char(end1);
    if c1 != ' ' {
        proof {
            assert(take_digits(rem).1[0] == s@[end1 as int]);
        }
        return None;
    }
    // completion flag and the space after it
    proof {
        assert(take_digits(rem).1 == s@.skip(end1 as int));
        assert(s@.skip(end1 as int).drop_first() =~= s@.skip(end1 as int + 1));
    }
    if n - end1 < 3 {
        return None;
    }
    let f = s.get_char(end1 + 1);
    proof {
        assert(s@.skip(end1 as int + 1)[0] == s@[end1 as int + 1]);
        assert(s@.skip(end1 as int + 1)[1] == s@[end1 as int + 2]);
    }
    if f != '0' && f != '1' {
        return None;
    }
    if s.get_char(end1 + 2) != ' ' {
        return None;
    }
    let complete = f == '1';
    // title length
    proof {
        assert(s@.skip(end1 as int + 1).skip(2) =~= s@.skip(end1 as int + 3));
    }
    let (end2, tlen, ovf2) = parse_decimal(s, n, end1 + 3);
    if end2 == end1 + 3 {
        return None;
    }
    if end2 == n {
        proof {
            assert(take_digits(s@.skip(end1 as int + 3)).1.len() == 0);
        }
        return None;
    }
    if s.get_char(end2) != ' ' {
        proof {
            assert(take_digits(s@.skip(end1 as int + 3)).1[0] == s@[end2 as int]);
        }
        return None;
    }
    // the title itself and the space after it
    proof {
        assert(s@.skip(end2 as int).drop_first() =~= s@.skip(end2 as int + 1));
        assert(s@.skip(end2 as int + 1).len() == n - end2 - 1);
    }
    let rem5: usize = n - end2 - 1;
    if ovf2 {
        proof {
            assert(dec_val(take_digits(s@.skip(end1 as int + 3)).0) > usize::MAX as nat);
        }
        return None;
    }
    if rem5 <= tlen {
        return None;
    }
    let title_end: usize = end2 + 1 + tlen;
    proof {
        assert(s@.skip(end2 as int + 1)[tlen as int] == s@[title_end as int]);
    }
    if s.get_char(title_end) != ' ' {
        return None;
    }
    let title = s.substring_char(end2 + 1, title_end);
    proof {
        assert(title@ =~= s@.skip(end2 as int + 1).take(tlen as int));
        assert(s@.skip(end2 as int + 1).skip(tlen as int + 1) =~= s@.skip(title_end as int + 1));
    }
    // description length
    let (end3, dlen, ovf3) = parse_decimal(s, n, title_end + 1);
    if end3 == title_end + 1 {
        return None;
    }
    if end3 == n {
        proof {
            assert(take_digits(s@.skip(title_end as int + 1)).1.len() == 0);
        }
        return None;
    }
    if s.get_char(end3) != ' ' {
        proof {
            assert(take_digits(s@.skip(title_end as int + 1)).1[0] == s@[end3 as int]);
        }
        return None;
    }
    // the description itself and the line break after it
    proof {
        assert(s@.skip(end3 as int).drop_first() =~= s@.skip(end3 as int + 1));
        assert(s@.skip(end3 as int + 1).len() == n - end3 - 1);
    }
    let rem8: usize = n - end3 - 1;
    if ovf3 {
        proof {
            assert(dec_val(take_digits(s@.skip(title_end as int + 1)).0) > usize::MAX as nat);
        }
        return None;
    }
    if rem8 <= dlen {
        return None;
    }
    let desc_end: usize = end3 + 1 + dlen;
    proof {
        assert(s@.skip(end3 as int + 1)[dlen as int] == s@[desc_end as int]);
    }
    if s.get_char(desc_end) != '\n' {
        return None;
    }
    let desc = s.substring_char(end3 + 1, desc_end);
    let task = Task {
        complete,
        num: num_acc as u16,
        task: String::from_str(title),
        description: String::from_str(desc),
    };
    proof {
        assert(desc@ =~= s@.skip(end3 as int + 1).take(dlen as int));
        assert(s@.skip(end3 as int + 1).skip(dlen as int + 1) =~= s@.skip(desc_end as int + 1));
        assert(parse_task(rem) == Some((task@, s@.skip(desc_end as int + 1))));
    }
    Some((task, desc_end + 1))
}

/// Decodes a list from text: the encoded tasks, which must also satisfy the
/// list invariant; anything else yields nothing, and the caller starts from
/// an empty list instead.
pub fn deserialize(s: &str) -> (r: Option<TaskList>)
    ensures
        r is Some <==> (parse_tasks(s@) is Some && wf_tasks(parse_tasks(s@).unwrap())),
        r is Some ==> r.unwrap()@ == parse_tasks(s@).unwrap() && r.unwrap().wf(),
{
    let n = s.unicode_len();
    let mut tasks: Vec<Task> = Vec::new();
    let mut i: usize = 0;
    proof {
        assert(s@.skip(0) =~= s@);
        assert(tasks@.map_values(|t: Task| t@) =~= Seq::<TaskView>::empty());
        if parse_tasks(s@) is Some {
            assert(tasks@.map_values(|t: Task| t@) + parse_tasks(s@).unwrap() =~= parse_tasks(
                s@,
            ).unwrap());
        }
    }
    while i < n
        invariant
            s@.len() == n as nat,
            0 <= i <= n,
            (parse_tasks(s@) is Some) <==> (parse_tasks(s@.skip(i as int)) is Some),
            parse_tasks(s@) is Some ==> parse_tasks(s@).unwrap() == tasks@.map_values(
                |t: Task| t@,
            ) + parse_tasks(s@.skip(i as int)).unwrap(),
        decreases n - i,
    {
        let parsed = parse_task_at(s, n, i);
        match parsed {
            None => {
                proof {
                    assert(s@.skip(i as int).len() > 0);
                    assert(parse_tasks(s@.skip(i as int)) is None);
                }
                return None;
            },
            Some((task, end)) => {
                proof {
                    let prev = s@.skip(i as int);
                    assert(prev.len() > 0);
                    assert(parse_task(prev) == Some((task@, s@.skip(end as int))));
                    assert(s@.skip(end as int).len() < prev.len());
                    let ghost m = tasks@.map_values(|t: Task| t@);
                    assert(tasks@.push(task).map_values(|t: Task| t@) =~= m.push(task@));
                    if parse_tasks(s@.skip(end as int)) is Some {
                        assert(parse_tasks(prev).unwrap() =~= seq![task@] + parse_tasks(
                            s@.skip(end as int),
                        ).unwrap());
                        assert(m + parse_tasks(prev).unwrap() =~= m.push(task@) + parse_tasks(
                            s@.skip(end as int),
                        ).unwrap());
                    }
                }
                tasks.push(task);
                i = end;
            },
        }
    }
    proof {
        assert(s@.skip(i as int) =~= Seq::<char>::empty());
        assert(parse_tasks(s@.skip(i as int)) == Some(Seq::<TaskView>::empty()));
        assert(parse_tasks(s@) is Some);
        assert(parse_tasks(s@).unwrap() =~= tasks@.map_values(|t: Task| t@));
    }
    let list = TaskList::from_tasks(tasks);
    if list.is_well_formed() {
        Some(list)
    } else {
        None
    }
}

impl TaskList {
    /// The list encoded as text, ready to be written to storage.
    pub fn serialize(&self) -> (r: String)
        ensures
            r@ == enc_tasks(self@),
    {
        let ts = self.tasks();
        let mut out = String::new();
        let mut i: usize = 0;
        while i < ts.len()
            invariant
                ts@.len() == self@.len(),
                forall|k: int| 0 <= k < ts@.len() ==> #[trigger] ts@[k]@ == self@[k],
                0 <= i <= ts@.len(),
                out@ == enc_tasks(self@.take(i as int)),
            decreases ts@.len() - i,
        {
            encode_task(&ts[i], &mut out);
            proof {
                assert(self@.take(i as int + 1) =~= self@.take(i as int).push(self@[i as int]));
                lemma_enc_tasks_snoc(self@.take(i as int), self@[i as int]);
                assert(ts@[i as int]@ == self@[i as int]);
            }
            i += 1;
        }
        proof {
            assert(self@.take(self@.len() as int) =~= self@);
        }
        out
    }
}

} // verus!
