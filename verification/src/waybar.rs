//! The status-bar object a Waybar answer becomes: a short text line, a
//! tooltip listing the whole day, and an alternate text, rendered as one
//! JSON-shaped line.

use crate::{Answer, AnswerModel};
use vstd::prelude::*;

verus! {

/// A status-bar object built from a Waybar answer.
#[derive(Debug)]
pub struct Waybar {
    text: String,
    tooltip: String,
    alt: String,
}

/// The mathematical value of a [`Waybar`].
pub struct WaybarModel {
    pub text: Seq<char>,
    pub tooltip: Seq<char>,
    pub alt: Seq<char>,
}

impl View for Waybar {
    type V = WaybarModel;

    closed spec fn view(&self) -> WaybarModel {
        WaybarModel { text: self.text@, tooltip: self.tooltip@, alt: self.alt@ }
    }
}

/// The tooltip: every (name, time) pair as `name: time \n`, the line break
/// written out as the two characters backslash and n.
pub open spec fn tooltip_str(l: Seq<(Seq<char>, Seq<char>)>) -> Seq<char>
    decreases l.len(),
{
    if l.len() == 0 {
        Seq::empty()
    } else {
        l[0].0 + ": "@ + l[0].1 + " \\n"@ + tooltip_str(l.drop_first())
    }
}

proof fn lemma_tooltip_snoc(l: Seq<(Seq<char>, Seq<char>)>, i: int)
    requires
        0 <= i < l.len(),
    ensures
        tooltip_str(l.take(i + 1)) =~= tooltip_str(l.take(i)) + (l[i].0 + ": "@ + l[i].1
            + " \\n"@),
    decreases i,
{
    if i == 0 {
        let t1 = l.take(1);
        assert(t1.len() == 1);
        assert(t1[0] == l[0]);
        assert(t1.drop_first() =~= Seq::<(Seq<char>, Seq<char>)>::empty());
        assert(tooltip_str(t1.drop_first()) =~= Seq::<char>::empty());
        assert(l.take(0) =~= Seq::<(Seq<char>, Seq<char>)>::empty());
        assert(tooltip_str(t1) =~= l[0].0 + ": "@ + l[0].1 + " \\n"@);
        assert(tooltip_str(l.take(0)) + (l[0].0 + ": "@ + l[0].1 + " \\n"@) =~= l[0].0 + ": "@
            + l[0].1 + " \\n"@);
    } else {
        let tail = l.drop_first();
        lemma_tooltip_snoc(tail, i - 1);
        assert(l.take(i + 1).drop_first() =~= tail.take(i));
        assert(l.take(i).drop_first() =~= tail.take(i - 1));
        assert(l.take(i + 1)[0] == l[0]);
        assert(l.take(i)[0] == l[0]);
        assert(tail[i - 1] == l[i]);
        let head = l[0].0 + ": "@ + l[0].1 + " \\n"@;
        let entry = l[i].0 + ": "@ + l[i].1 + " \\n"@;
        assert(tooltip_str(l.take(i + 1)) =~= head + (tooltip_str(tail.take(i - 1)) + entry));
        assert(tooltip_str(l.take(i)) + entry =~= (head + tooltip_str(tail.take(i - 1))) + entry);
    }
}

impl Waybar {
    /// Builds the status object from a Waybar answer: text is
    /// `name relative`, alt is `name at time`, and the tooltip lists the
    /// whole day. Any other answer yields nothing.
    pub fn new(answer: Answer) -> (r: Option<Waybar>)
        ensures
            match answer@ {
                AnswerModel::Waybar(name, time, rel, all) => match r {
                    Some(w) => {
                        &&& w@.text == name + " "@ + rel
                        &&& w@.alt == name + " at "@ + time
                        &&& w@.tooltip == tooltip_str(all)
                    },
                    None => false,
                },
                _ => r is None,
            },
    {
        proof {
            reveal_strlit(" ");
            reveal_strlit(" at ");
            reveal_strlit(": ");
            reveal_strlit(" \\n");
        }
        match answer {
            Answer::Waybar(name, time, rel, all) => {
                let ghost dv = all.deep_view();
                let mut tooltip = String::new();
                let mut i: usize = 0;
                proof {
                    assert(dv.take(0) =~= Seq::<(Seq<char>, Seq<char>)>::empty());
                    assert(tooltip@ =~= tooltip_str(dv.take(0)));
                }
                while i < all.len()
                    invariant
                        i <= all@.len(),
                        dv == all.deep_view(),
                        dv.len() == all@.len(),
                        tooltip@ == tooltip_str(dv.take(i as int)),
                    decreases all@.len() - i,
                {
                    proof {
                        reveal_strlit(": ");
                        reveal_strlit(" \\n");
                        assert(dv[i as int] == (all@[i as int].0@, all@[i as int].1@));
                    }
                    let pair = &all[i];
                    tooltip.append(pair.0.as_str());
                    tooltip.append(": ");
                    tooltip.append(pair.1.as_str());
                    tooltip.append(" \\n");
                    proof {
                        lemma_tooltip_snoc(dv, i as int);
                        assert(tooltip@ =~= tooltip_str(dv.take(i as int + 1)));
                    }
                    i = i + 1;
                }
                proof {
                    assert(dv.take(all@.len() as int) =~= dv);
                }
                let mut text = name.clone();
                text.append(" ");
                text.append(rel.as_str());
                let mut alt = name;
                alt.append(" at ");
                alt.append(time.as_str());
                Some(Waybar { text, tooltip, alt })
            },
            other => {
                proof {
                    assert(other@ !is Waybar);
                }
                None
            },
        }
    }

    /// Renders the status object as its one-line JSON shape.
    pub fn render(&self) -> (r: String)
        ensures
            r@ == waybar_json(self@),
    {
        proof {
            reveal_strlit("{\"text\": \"");
            reveal_strlit("\",\"tooltip\": \"");
            reveal_strlit("\", \"alt\": \"");
            reveal_strlit("\"}");
        }
        let mut s = String::from_str("{\"text\": \"");
        s.append(self.text.as_str());
        s.append("\",\"tooltip\": \"");
        s.append(self.tooltip.as_str());
        s.append("\", \"alt\": \"");
        s.append(self.alt.as_str());
        s.append("\"}");
        proof {
            assert(s@ =~= waybar_json(self@));
        }
        s
    }
}

/// The one-line JSON shape of a status object.
pub open spec fn waybar_json(w: WaybarModel) -> Seq<char> {
    "{\"text\": \""@ + w.text + "\",\"tooltip\": \""@ + w.tooltip + "\", \"alt\": \""@ + w.alt
        + "\"}"@
}

} // verus!
