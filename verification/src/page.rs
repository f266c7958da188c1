//! The HTML page listing a directory's entries.
//!
//! Each entry becomes one `<li>` item, in the order the entries are
//! given (filesystem enumeration order, unsorted).  The link target is
//! the request path, `/`-terminated, followed by the percent-encoded
//! entry name; the visible link text is the raw entry name.

use vstd::prelude::*;
use crate::codec::encode_spec;
use crate::codec::encode_url;
use crate::text::push_char;

verus! {

/// The request path with a trailing `/` ensured.
pub open spec fn dir_prefix(path: Seq<char>) -> Seq<char> {
    if path.len() > 0 && path.last() == '/' {
        path
    } else {
        path + seq!['/']
    }
}

/// One listing item for entry `name` of the directory at `path`.
pub open spec fn item_of(path: Seq<char>, name: Seq<char>) -> Seq<char> {
    "<li><a href=\""@ + dir_prefix(path) + encode_spec(name) + "\">"@ + name + "</a></li>"@
}

/// The listing items for all entries, in the given order.
pub open spec fn items_of(path: Seq<char>, names: Seq<Seq<char>>) -> Seq<char>
    decreases names.len(),
{
    if names.len() == 0 {
        Seq::empty()
    } else {
        items_of(path, names.drop_last()) + item_of(path, names.last())
    }
}

/// The whole listing page for the directory at `path`.
pub open spec fn listing_page_spec(path: Seq<char>, names: Seq<Seq<char>>) -> Seq<char> {
    "<html><meta charset=\"utf-8\" /><body><ul>"@ + items_of(path, names)
        + "</ul></body></html>"@
}

/// Renders the listing page for the directory at `path`, whose entries
/// are `names`, in that order.
pub fn render_dir_listing(path: &str, names: &Vec<String>) -> (r: String)
    ensures
        r@ == listing_page_spec(path@, names@.map_values(|s: String| s@)),
{
    let ghost names_v = names@.map_values(|s: String| s@);
    let n_path = path.unicode_len();
    let mut prefix = path.to_owned();
    if !(n_path > 0 && path.get_char(n_path - 1) == '/') {
        push_char(&mut prefix, '/');
    }
    proof {
        assert(prefix@ == dir_prefix(path@));
    }
    let mut items = String::new();
    let mut i: usize = 0;
    while i < names.len()
        invariant
            prefix@ == dir_prefix(path@),
            names_v == names@.map_values(|s: String| s@),
            0 <= i <= names.len(),
            items@ == items_of(path@, names_v.take(i as int)),
        decreases names.len() - i,
    {
        let name = &names[i];
        items.append("<li><a href=\"");
        items.append(prefix.as_str());
        let enc = encode_url(name.as_str());
        items.append(enc.as_str());
        items.append("\">");
        items.append(name.as_str());
        items.append("</a></li>");
        proof {
            assert(names_v.take(i + 1).drop_last() =~= names_v.take(i as int));
            assert(names_v.take(i + 1).last() == names_v[i as int]);
            assert(items@ =~= items_of(path@, names_v.take(i + 1)));
        }
        i += 1;
    }
    proof {
        assert(names_v.take(names@.len() as int) =~= names_v);
    }
    let mut out = String::new();
    out.append("<html><meta charset=\"utf-8\" /><body><ul>");
    out.append(items.as_str());
    out.append("</ul></body></html>");
    proof {
        assert(out@ =~= listing_page_spec(path@, names_v));
    }
    out
}

} // verus!
