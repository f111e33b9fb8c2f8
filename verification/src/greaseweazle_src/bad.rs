//! The sectors that could not be read.

use crate::text::decimal;
use crate::text::push_decimal;
use vstd::prelude::*;

verus! {

/// A sector by cylinder, head and number.
pub type Place = (u16, u8, u8);

/// Whether `a` comes before `b`.
pub open spec fn before(a: Place, b: Place) -> bool {
    a.0 < b.0 || a.0 == b.0 && (a.1 < b.1 || a.1 == b.1 && a.2 < b.2)
}

/// Whether the places are in order, each once.
pub open spec fn in_order(s: Seq<Place>) -> bool {
    forall|i: int, j: int| 0 <= i < j < s.len() ==> before(#[trigger] s[i], #[trigger] s[j])
}

/// A set of places, in order.
pub struct BadSectors {
    list: Vec<Place>,
}

fn is_before(a: Place, b: Place) -> (r: bool)
    ensures
        r == before(a, b),
{
    a.0 < b.0 || a.0 == b.0 && (a.1 < b.1 || a.1 == b.1 && a.2 < b.2)
}

/// The line for one place.
pub open spec fn place_line(p: Place) -> Seq<char> {
    "  C"@ + decimal(p.0 as nat) + " H"@ + decimal(p.1 as nat) + " R"@ + decimal(p.2 as nat)
}

impl View for BadSectors {
    type V = Set<Place>;

    closed spec fn view(&self) -> Set<Place> {
        self.list@.to_set()
    }
}

impl BadSectors {
    #[verifier::type_invariant]
    spec fn wf(&self) -> bool {
        in_order(self.list@)
    }

    pub fn new() -> (b: BadSectors)
        ensures
            b@ == Set::<Place>::empty(),
    {
        let b = BadSectors { list: Vec::new() };
        assert(b@ =~= Set::<Place>::empty());
        b
    }

    /// Adds a place.
    pub fn insert(&mut self, p: Place)
        ensures
            final(self)@ == old(self)@.insert(p),
    {
        proof {
            use_type_invariant(&*self);
        }
        let ghost had = self.list@;
        let mut i: usize = 0;
        while i < self.list.len() && is_before(self.list[i], p)
            invariant
                i <= self.list.len(),
                self.list@ == had,
                forall|k: int| 0 <= k < i ==> before(#[trigger] self.list@[k], p),
            decreases self.list.len() - i,
        {
            i = i + 1;
        }
        if i < self.list.len() && !is_before(p, self.list[i]) {
            assert(had[i as int] == p);
            assert(had.to_set().insert(p) =~= had.to_set());
            return ;
        }
        let mut list: Vec<Place> = Vec::new();
        std::mem::swap(&mut list, &mut self.list);
        list.insert(i, p);
        proof {
            let now = list@;
            assert(now == had.insert(i as int, p));
            assert forall|a: int, b: int| 0 <= a < b < now.len() implies before(
                #[trigger] now[a],
                #[trigger] now[b],
            ) by {
                let x = if a < i {
                    a
                } else {
                    a - 1
                };
                let y = if b < i {
                    b
                } else {
                    b - 1
                };
                if a != i && b != i {
                    assert(now[a] == had[x] && now[b] == had[y]);
                    assert(before(had[x], had[y]));
                } else if a == i {
                    assert(now[b] == had[y]);
                    if y > i {
                        assert(before(had[i as int], had[y]));
                    }
                } else {
                    assert(now[a] == had[a]);
                }
            }
            assert(now.to_set() =~= had.to_set().insert(p)) by {
                assert forall|q: Place| now.to_set().contains(q) <==> had.to_set().insert(
                    p,
                ).contains(q) by {
                    if now.contains(q) {
                        let k = choose|k: int| 0 <= k < now.len() && now[k] == q;
                        if k < i {
                            assert(had[k] == q);
                        } else if k > i {
                            assert(had[k - 1] == q);
                        }
                    }
                    if had.contains(q) {
                        let k = choose|k: int| 0 <= k < had.len() && had[k] == q;
                        if k < i {
                            assert(now[k] == q);
                        } else {
                            assert(now[k + 1] == q);
                        }
                    }
                    if q == p {
                        assert(now[i as int] == p);
                    }
                }
            }
        }
        self.list = list;
    }

    /// The places in order.
    pub fn places(&self) -> (list: &Vec<Place>)
        ensures
            in_order(list@),
            list@.to_set() == self@,
    {
        proof {
            use_type_invariant(self);
        }
        &self.list
    }

    /// What to tell the user: nothing, or the number of places and the places.
    pub fn report(&self) -> (lines: Vec<String>)
        ensures
            exists|list: Seq<Place>|
                in_order(list) && list.to_set() == self@ && #[trigger] is_report(lines@, list),
    {
        let list: &Vec<Place> = self.places();
        let mut lines: Vec<String> = Vec::new();
        if list.len() == 0 {
            assert(is_report(lines@, list@));
            return lines;
        }
        let mut head: String = "Проблемных секторов: ".to_owned();
        push_decimal(&mut head, list.len() as u64);
        head.append(" (C/H/R):");
        lines.push(head);
        let mut i: usize = 0;
        while i < list.len()
            invariant
                i <= list.len(),
                list.len() > 0,
                lines.len() == i + 1,
                lines@[0]@ == "Проблемных секторов: "@ + decimal(list@.len()) + " (C/H/R):"@,
                forall|k: int|
                    0 <= k < i ==> (#[trigger] lines@[k + 1])@ == place_line(list@[k]),
            decreases list.len() - i,
        {
            let p: Place = list[i];
            let mut line: String = "  C".to_owned();
            push_decimal(&mut line, p.0 as u64);
            line.append(" H");
            push_decimal(&mut line, p.1 as u64);
            line.append(" R");
            push_decimal(&mut line, p.2 as u64);
            lines.push(line);
            i = i + 1;
        }
        assert(is_report(lines@, list@));
        lines
    }
}

/// Whether `lines` tell of the places in `list`.
pub open spec fn is_report(lines: Seq<String>, list: Seq<Place>) -> bool {
    if list.len() == 0 {
        lines.len() == 0
    } else {
        &&& lines.len() == list.len() + 1
        &&& lines[0]@ == "Проблемных секторов: "@ + decimal(list.len()) + " (C/H/R):"@
        &&& forall|k: int|
            0 <= k < list.len() ==> (#[trigger] lines[k + 1])@ == place_line(list[k])
    }
}

/// Places come in the order of the disk: by cylinder, on a cylinder by head, on a track
/// by number.
pub proof fn law_places_are_in_disk_order(a: Place, b: Place)
    ensures
        before(a, b) <==> 0x1_0000 * a.0 + 0x100 * a.1 + a.2 < 0x1_0000 * b.0 + 0x100 * b.1 + b.2,
{
}

/// A report has one line for each place, with its three numbers, below one that says how
/// many there are; there is none where there is no place.
pub proof fn law_report_names_places(lines: Seq<String>, list: Seq<Place>, k: int)
    requires
        is_report(lines, list),
        0 <= k < list.len(),
    ensures
        lines.len() == 1 + list.len(),
        lines[0]@ == "Проблемных секторов: "@ + decimal(list.len()) + " (C/H/R):"@,
        lines[k + 1]@ == "  C"@ + decimal(list[k].0 as nat) + " H"@ + decimal(list[k].1 as nat)
            + " R"@ + decimal(list[k].2 as nat),
{
}

/// Where there is no place there is no line, and where there is no line there is no place.
pub proof fn law_nothing_to_report(lines: Seq<String>, list: Seq<Place>)
    requires
        is_report(lines, list),
    ensures
        lines.len() == 0 <==> list.len() == 0,
{
}

} // verus!
