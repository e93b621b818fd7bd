//! How packets are written.

use vstd::prelude::*;
use vstd::string::*;
use crate::showlaws;
use crate::text;
use crate::textlaws;
use crate::wherelaws;
use crate::xml;
use crate::xml::AttrView;
use crate::xmp;
use crate::xmp::ValueView;

verus! {

/// The words, told apart by their lengths and letters.
proof fn lemma_prefix_words()
    ensures
        "rdf"@.len() == 3 && "rdf"@[0] == 'r',
        "dc"@.len() == 2 && "dc"@[0] == 'd',
        "xmp"@.len() == 3 && "xmp"@[0] == 'x',
        "photoshop"@.len() == 9 && "photoshop"@[0] == 'p',
        "lr"@.len() == 2 && "lr"@[0] == 'l',
        "xmpRights"@.len() == 9 && "xmpRights"@[0] == 'x',
        "Iptc4xmpCore"@.len() == 12 && "Iptc4xmpCore"@[0] == 'I',
{
    reveal_strlit("rdf");
    reveal_strlit("dc");
    reveal_strlit("xmp");
    reveal_strlit("photoshop");
    reveal_strlit("lr");
    reveal_strlit("xmpRights");
    reveal_strlit("Iptc4xmpCore");
}

/// The prefixes stand for the namespaces that everyone uses them for.
pub proof fn prefixes_have_their_namespaces(p: Seq<char>)
    ensures
        p == "rdf"@ ==> xmp::namespace(p) == Some("http://www.w3.org/1999/02/22-rdf-syntax-ns#"@),
        p == "dc"@ ==> xmp::namespace(p) == Some("http://purl.org/dc/elements/1.1/"@),
        p == "xmp"@ ==> xmp::namespace(p) == Some("http://ns.adobe.com/xap/1.0/"@),
        p == "photoshop"@ ==> xmp::namespace(p) == Some("http://ns.adobe.com/photoshop/1.0/"@),
        p == "lr"@ ==> xmp::namespace(p) == Some("http://ns.adobe.com/lightroom/1.0/"@),
        p == "xmpRights"@ ==> xmp::namespace(p) == Some("http://ns.adobe.com/xap/1.0/rights/"@),
        p == "Iptc4xmpCore"@ ==> xmp::namespace(p) == Some("http://iptc.org/std/Iptc4xmpCore/1.0/xmlns/"@),
        p != "rdf"@ && p != "dc"@ && p != "xmp"@ && p != "photoshop"@ && p != "lr"@ && p != "xmpRights"@ && p
            != "Iptc4xmpCore"@ ==> xmp::namespace(p) is None,
{
    lemma_prefix_words();
}

/// The prefix of a name is what stands before the first colon.
pub proof fn names_begin_with_their_prefix(prefix: Seq<char>, name: Seq<char>)
    requires
        !prefix.contains(':'),
    ensures
        xmp::prefix_of(prefix + ":"@ + name) == prefix,
{
    reveal_strlit(":");
    assert(":"@ =~= seq![':']);
    textlaws::lemma_first_char(prefix, ':', name, 0);
    assert((prefix + seq![':'] + name).take(prefix.len() as int) =~= prefix);
}

/// Plain text stands in the element itself, text by language in an alternative for any language, a
/// list in order in a sequence and another in a bag, each item in an element of its own.
pub proof fn values_have_their_forms(name: Seq<char>, s: Seq<char>, items: Seq<Seq<char>>)
    ensures
        xmp::fragment(name, ValueView::Simple(s)) == "<"@ + name + ">"@ + xml::escaped(s) + "</"@ + name + ">"@,
        xmp::fragment(name, ValueView::LangAlt(s)) == "<"@ + name + ">"@ + (
        "<rdf:Alt><rdf:li xml:lang=\"x-default\">"@ + xml::escaped(s) + "</rdf:li></rdf:Alt>"@) + "</"@ + name
            + ">"@,
        xmp::fragment(name, ValueView::Ordered(items)) == "<"@ + name + ">"@ + ("<rdf:Seq>"@ + xmp::list_items(items)
            + "</rdf:Seq>"@) + "</"@ + name + ">"@,
        xmp::fragment(name, ValueView::Bag(items)) == "<"@ + name + ">"@ + ("<rdf:Bag>"@ + xmp::list_items(items)
            + "</rdf:Bag>"@) + "</"@ + name + ">"@,
        xmp::list_items(items.push(s)) == xmp::list_items(items) + "<rdf:li>"@ + xml::escaped(s) + "</rdf:li>"@,
        xmp::list_items(Seq::empty()) == Seq::<char>::empty(),
{
    assert(items.push(s).drop_last() =~= items);
}

proof fn lemma_put(list: Seq<Seq<char>>, s: Seq<char>)
    ensures
        xmp::put_sorted(list, s).contains(s),
        forall|x: Seq<char>| #[trigger] list.contains(x) ==> xmp::put_sorted(list, s).contains(x),
    decreases list.len(),
{
    let r = xmp::put_sorted(list, s);
    if list.len() == 0 || text::text_less(list.last(), s) {
        assert(r[list.len() as int] == s);
        assert forall|x: Seq<char>| #[trigger] list.contains(x) implies r.contains(x) by {
            let i = choose|i: int| 0 <= i < list.len() && list[i] == x;
            assert(r[i] == x);
        }
    } else if list.last() == s {
        assert(r[list.len() - 1] == s);
    } else {
        let front = list.drop_last();
        let put = xmp::put_sorted(front, s);
        lemma_put(front, s);
        let k = choose|k: int| 0 <= k < put.len() && put[k] == s;
        assert(r[k] == s);
        assert forall|x: Seq<char>| #[trigger] list.contains(x) implies r.contains(x) by {
            let i = choose|i: int| 0 <= i < list.len() && list[i] == x;
            if i < front.len() {
                assert(front[i] == x);
                assert(front.contains(x));
                let j = choose|j: int| 0 <= j < put.len() && put[j] == x;
                assert(r[j] == x);
            } else {
                assert(r[put.len() as int] == x);
            }
        }
    }
}

proof fn lemma_prefix_there(sets: Seq<(Seq<char>, ValueView)>, k: int)
    requires
        0 <= k < sets.len(),
    ensures
        xmp::prefixes(sets).contains(xmp::prefix_of(sets[k].0)),
    decreases sets.len(),
{
    lemma_put(xmp::prefixes(sets.drop_last()), xmp::prefix_of(sets.last().0));
    if k < sets.len() - 1 {
        lemma_prefix_there(sets.drop_last(), k);
    }
}

/// The declaration of a prefix.
pub open spec fn declaration(prefix: Seq<char>, uri: Seq<char>) -> Seq<char> {
    " xmlns:"@ + prefix + "=\""@ + uri + "\""@
}

proof fn lemma_declared(list: Seq<Seq<char>>, p: Seq<char>)
    requires
        list.contains(p),
        xmp::namespace(p) is Some,
        p != "rdf"@,
    ensures
        wherelaws::stands_in(declaration(p, xmp::namespace(p)->0), xmp::declarations(list)),
    decreases list.len(),
{
    let e = Seq::<char>::empty();
    let head = xmp::declarations(list.drop_last());
    let d = declaration(p, xmp::namespace(p)->0);
    let all = xmp::declarations(list);
    if list.last() == p {
        assert(all =~= head + d + e);
    } else {
        let i = choose|i: int| 0 <= i < list.len() && list[i] == p;
        assert(list.drop_last()[i] == p);
        lemma_declared(list.drop_last(), p);
        let rest = if xmp::namespace(list.last()) is Some && list.last() != "rdf"@ {
            declaration(list.last(), xmp::namespace(list.last())->0)
        } else {
            e
        };
        showlaws::lemma_behind(e, d, head, rest);
        assert(all =~= e + head + rest);
    }
}

proof fn lemma_fragment_there(sets: Seq<(Seq<char>, ValueView)>, k: int)
    requires
        0 <= k < sets.len(),
    ensures
        wherelaws::stands_in(xmp::fragment(sets[k].0, sets[k].1), xmp::fragments(sets)),
    decreases sets.len(),
{
    let e = Seq::<char>::empty();
    let head = xmp::fragments(sets.drop_last());
    let last = xmp::fragment(sets.last().0, sets.last().1);
    assert(xmp::fragments(sets) =~= (head + "\n   "@) + last + e);
    if k < sets.len() - 1 {
        lemma_fragment_there(sets.drop_last(), k);
        showlaws::lemma_behind(e, xmp::fragment(sets[k].0, sets[k].1), head, "\n   "@ + last);
        assert(e + head + ("\n   "@ + last) =~= xmp::fragments(sets));
    }
}

/// A new packet declares the prefix of every property that it holds, and holds every property that is
/// set.
pub proof fn new_packets_hold_what_is_set(edit: xmp::EditView, k: int)
    requires
        0 <= k < edit.sets.len(),
    ensures
        ({
            let p = xmp::prefix_of(edit.sets[k].0);
            &&& wherelaws::stands_in(xmp::fragment(edit.sets[k].0, edit.sets[k].1), xmp::fresh_packet(edit))
            &&& xmp::namespace(p) is Some && p != "rdf"@ ==> wherelaws::stands_in(
                declaration(p, xmp::namespace(p)->0),
                xmp::fresh_packet(edit),
            )
        }),
{
    let p = xmp::prefix_of(edit.sets[k].0);
    let d = xmp::declarations(xmp::prefixes(edit.sets));
    let f = xmp::fragments(edit.sets);
    let a = "<?xpacket begin=\"\u{feff}\" id=\"W5M0MpCehiHzreSzNTczkc9d\"?>"@
        + "\n<x:xmpmeta xmlns:x=\"adobe:ns:meta/\">"@
        + "\n <rdf:RDF xmlns:rdf=\"http://www.w3.org/1999/02/22-rdf-syntax-ns#\">"@
        + "\n  <rdf:Description rdf:about=\"\""@;
    let (b, c, g, h, i) = (
        ">"@,
        "\n  </rdf:Description>"@,
        "\n </rdf:RDF>"@,
        "\n</x:xmpmeta>"@,
        "\n<?xpacket end=\"w\"?>"@,
    );
    assert(xmp::fresh_packet(edit) == a + d + b + f + c + g + h + i);
    lemma_eight(a, d, b, f, c, g, h, i);
    lemma_fragment_there(edit.sets, k);
    showlaws::lemma_behind(a + d + b, xmp::fragment(edit.sets[k].0, edit.sets[k].1), f, c + g + h + i);
    if xmp::namespace(p) is Some && p != "rdf"@ {
        lemma_prefix_there(edit.sets, k);
        lemma_declared(xmp::prefixes(edit.sets), p);
        showlaws::lemma_behind(a, declaration(p, xmp::namespace(p)->0), d, b + f + c + g + h + i);
    }
}

proof fn lemma_eight(
    a: Seq<char>,
    d: Seq<char>,
    b: Seq<char>,
    f: Seq<char>,
    c: Seq<char>,
    g: Seq<char>,
    h: Seq<char>,
    i: Seq<char>,
)
    ensures
        a + d + b + f + c + g + h + i == (a + d + b) + f + (c + g + h + i),
        a + d + b + f + c + g + h + i == a + d + (b + f + c + g + h + i),
{
    assert(a + d + b + f + c + g + h + i =~= (a + d + b) + f + (c + g + h + i));
    assert(a + d + b + f + c + g + h + i =~= a + d + (b + f + c + g + h + i));
}

/// Attributes of the description are properties, in order, except declarations and the subject.
pub proof fn attributes_are_properties(a: Seq<AttrView>, key: Seq<char>, value: Seq<char>)
    ensures
        ({
            let one = AttrView::Pair(key, Ok(value));
            &&& key != "rdf:about"@ && !text::has_prefix(key, "xmlns"@) ==> xmp::attribute_properties(a.push(one))
                == xmp::attribute_properties(a).push((key, value))
            &&& key == "rdf:about"@ || text::has_prefix(key, "xmlns"@) ==> xmp::attribute_properties(a.push(one))
                == xmp::attribute_properties(a)
        }),
{
    assert(a.push(AttrView::Pair(key, Ok(value))).drop_last() =~= a);
}

proof fn lemma_last_dot(s: Seq<char>, n: int, k: int)
    requires
        0 <= k < n <= s.len(),
        s[k] == '.',
        forall|i: int| k < i < n ==> (#[trigger] s[i]) != '.',
    ensures
        xmp::last_dot(s, n) == Some(k),
    decreases n,
{
    if n - 1 > k {
        assert(s[n - 1] != '.');
        lemma_last_dot(s, n - 1, k);
    }
}

proof fn lemma_no_dot(s: Seq<char>, n: int)
    requires
        n <= s.len(),
        forall|i: int| 0 <= i < n ==> (#[trigger] s[i]) != '.',
    ensures
        xmp::last_dot(s, n) is None,
    decreases n,
{
    if n > 0 {
        assert(s[n - 1] != '.');
        lemma_no_dot(s, n - 1);
    }
}

/// The name of the file beside an image has its extension in place of the image's own, or behind a
/// name that has none.
pub proof fn extensions_are_replaced(stem: Seq<char>, extension: Seq<char>)
    requires
        !extension.contains('.'),
    ensures
        stem.len() > 0 ==> xmp::stem_of(stem + "."@ + extension) == stem,
        xmp::stem_of("."@ + extension) == "."@ + extension,
        xmp::stem_of(extension) == extension,
{
    reveal_strlit(".");
    assert("."@ =~= seq!['.']);
    let s = stem + "."@ + extension;
    let n = stem.len() as int;
    assert forall|i: int| n < i < s.len() implies (#[trigger] s[i]) != '.' by {
        assert(s[i] == extension[i - n - 1]);
        assert(extension.contains(extension[i - n - 1]));
    }
    lemma_last_dot(s, s.len() as int, n);
    assert(s.take(n) =~= stem);
    let t = "."@ + extension;
    assert forall|i: int| 0 < i < t.len() implies (#[trigger] t[i]) != '.' by {
        assert(t[i] == extension[i - 1]);
        assert(extension.contains(extension[i - 1]));
    }
    lemma_last_dot(t, t.len() as int, 0);
    assert forall|i: int| 0 <= i < extension.len() implies (#[trigger] extension[i]) != '.' by {
        assert(extension.contains(extension[i]));
    }
    lemma_no_dot(extension, extension.len() as int);
}

} // verus!
