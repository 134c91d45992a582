use vstd::prelude::*;
use crate::results::ResultMap;
use crate::text::views;

verus! {

/// The exact text printed for one resolved entry: the XML-wrapped value
/// whenever `--xml` is set, `name: value` for a full listing without it, and
/// the bare value otherwise.
pub open spec fn spec_display(
    entry: Seq<char>,
    data: Seq<char>,
    xml: bool,
    all_info: bool,
) -> Seq<char> {
    if xml {
        "<"@ + entry + ">"@ + data + "</"@ + entry + ">"@
    } else if all_info {
        entry + ": "@ + data
    } else {
        data
    }
}

/// Formats one resolved entry.
pub fn display_data(entry: &str, data: &str, xml: bool, all_info: bool) -> (r: String)
    ensures
        r@ == spec_display(entry@, data@, xml, all_info),
{
    if xml {
        let mut out = String::from_str("<");
        out.append(entry);
        out.append(">");
        out.append(data);
        out.append("</");
        out.append(entry);
        out.append(">");
        out
    } else if all_info {
        let mut out = entry.to_owned();
        out.append(": ");
        out.append(data);
        out
    } else {
        data.to_owned()
    }
}

/// Formats every resolved entry, one line per option, in the order the walk
/// discovered them.
pub fn display(map: &ResultMap, xml: bool, all_info: bool) -> (r: Vec<String>)
    requires
        map.wf(),
    ensures
        views(r@).len() == map.spec_names().len(),
        forall|i: int|
            0 <= i < map.spec_names().len() ==> views(r@)[i] == spec_display(
                map.spec_names()[i],
                map.spec_values()[i],
                xml,
                all_info,
            ),
{
    let mut out: Vec<String> = Vec::new();
    let n = map.len();
    let mut i: usize = 0;
    while i < n
        invariant
            map.wf(),
            n == map.spec_names().len(),
            i <= n,
            views(out@).len() == i,
            forall|k: int|
                0 <= k < i ==> views(out@)[k] == spec_display(
                    map.spec_names()[k],
                    map.spec_values()[k],
                    xml,
                    all_info,
                ),
        decreases n - i,
    {
        let ghost pre = views(out@);
        let line = display_data(map.name_at(i).as_str(), map.value_at(i).as_str(), xml, all_info);
        out.push(line);
        proof {
            assert(views(out@) =~= pre.push(out@.last()@));
        }
        i = i + 1;
    }
    out
}

} // verus!
