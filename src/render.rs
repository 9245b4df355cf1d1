use vstd::prelude::*;
use crate::call_tree::CallTree;

verus! {

pub const PAGE_OPEN: &'static str = r#"
<!doctype html>
<html>
    <head>
        <style>
            html, body {
                width: 100%;
                height: 100%;
                margin: 0;
                padding: 0;
            }
            "#;

pub const STYLE_CLOSE: &'static str = r#"
        </style>
        <script>
            "#;

pub const SCRIPT_SEPARATOR: &'static str = r#"
            "#;

pub const DATA_OPEN: &'static str = r#"
        </script>
    </head>
    <body>
        <script>
            var width = document.body.offsetWidth;
            var height = document.body.offsetHeight - 100;
            var flamegraph =
                d3.flameGraph()
                  .width(width)
                  .height(height)
                  .tooltip(false)
                  .sort(function(a, b){
                    if (a.start < b.start) {
                        return -1;
                    } else if (a.start > b.start) {
                        return 1;
                    } else {
                        return 0;
                    }
                  });
            d3.select("body").datum({ children: ["#;

pub const PAGE_CLOSE: &'static str = r#"]}).call(flamegraph);
         </script>
    </body>
</html>"#;

/// The character of decimal digit `d`.
pub open spec fn digit_char(d: nat) -> char {
    if d == 0 {
        '0'
    } else if d == 1 {
        '1'
    } else if d == 2 {
        '2'
    } else if d == 3 {
        '3'
    } else if d == 4 {
        '4'
    } else if d == 5 {
        '5'
    } else if d == 6 {
        '6'
    } else if d == 7 {
        '7'
    } else if d == 8 {
        '8'
    } else {
        '9'
    }
}

/// `n` written in decimal, without leading zeros.
pub open spec fn decimal(n: nat) -> Seq<char>
    decreases n,
{
    if n < 10 {
        seq![digit_char(n)]
    } else {
        decimal(n / 10).push(digit_char(n % 10))
    }
}

/// The text of node `i` and everything below it: a non-root node is an object
/// with its label, its duration and the list of its children; the root is only
/// the list of its children.
pub open spec fn item_text(t: CallTree, i: int) -> Seq<char>
    decreases t.size() - i, t.nodes@[i].children@.len() + 1,
{
    if 0 <= i < t.size() {
        let inner = children_text(t, i, t.nodes@[i].children@.len() as int);
        if i == 0 {
            inner
        } else {
            "{ name: \""@ + t.nodes@[i].label@ + "\", value: "@ + decimal(
                t.nodes@[i].duration as nat,
            ) + ", children: ["@ + inner + "] }"@
        }
    } else {
        Seq::empty()
    }
}

/// The texts of the first `k` children of node `i`, each followed by a comma.
pub open spec fn children_text(t: CallTree, i: int, k: int) -> Seq<char>
    decreases t.size() - i, k,
{
    if 0 <= i < t.size() && 0 < k <= t.nodes@[i].children@.len() {
        let c = t.nodes@[i].children@[k - 1] as int;
        if i < c < t.size() {
            children_text(t, i, k - 1) + item_text(t, c) + ","@
        } else {
            Seq::empty()
        }
    } else {
        Seq::empty()
    }
}

/// The whole page: the scaffolding with the given style sheet and scripts, and
/// the tree's data between the opening and closing of the data list.
pub open spec fn page_text(
    t: CallTree,
    css: Seq<char>,
    d3: Seq<char>,
    d3_tip: Seq<char>,
    flame_js: Seq<char>,
) -> Seq<char> {
    PAGE_OPEN@ + css + STYLE_CLOSE@ + d3 + SCRIPT_SEPARATOR@ + d3_tip + SCRIPT_SEPARATOR@ + flame_js
        + DATA_OPEN@ + item_text(t, 0) + PAGE_CLOSE@
}

/// Two trees whose nodes agree on labels, durations and child lists.
pub open spec fn same_shape(t1: CallTree, t2: CallTree) -> bool {
    &&& t1.size() == t2.size()
    &&& forall|j: int|
        0 <= j < t1.size() ==> {
            &&& (#[trigger] t1.nodes@[j]).label@ == t2.nodes@[j].label@
            &&& t1.nodes@[j].duration == t2.nodes@[j].duration
            &&& t1.nodes@[j].children@ == t2.nodes@[j].children@
        }
}

/// The rendered text depends only on the labels, durations and child lists of
/// the nodes: rendering a tree again, or rendering any tree of the same shape,
/// gives the same labels, values and children.
pub proof fn law_render_structural(t1: CallTree, t2: CallTree, i: int)
    requires
        same_shape(t1, t2),
    ensures
        item_text(t1, i) == item_text(t2, i),
    decreases t1.size() - i, t1.nodes@[i].children@.len() + 1,
{
    if 0 <= i < t1.size() {
        assert(t1.nodes@[i].children@ == t2.nodes@[i].children@);
        lemma_children_text_structural(t1, t2, i, t1.nodes@[i].children@.len() as int);
    }
}

proof fn lemma_children_text_structural(t1: CallTree, t2: CallTree, i: int, k: int)
    requires
        same_shape(t1, t2),
    ensures
        children_text(t1, i, k) == children_text(t2, i, k),
    decreases t1.size() - i, k,
{
    if 0 <= i < t1.size() && 0 < k <= t1.nodes@[i].children@.len() {
        assert(t1.nodes@[i].children@ == t2.nodes@[i].children@);
        let c = t1.nodes@[i].children@[k - 1] as int;
        if i < c < t1.size() {
            lemma_children_text_structural(t1, t2, i, k - 1);
            law_render_structural(t1, t2, c);
        }
    }
}

/// Rendering the same tree twice, with the same scaffolding, gives the same page.
pub proof fn law_render_repeatable(
    t1: CallTree,
    t2: CallTree,
    css: Seq<char>,
    d3: Seq<char>,
    d3_tip: Seq<char>,
    flame_js: Seq<char>,
)
    requires
        same_shape(t1, t2),
    ensures
        page_text(t1, css, d3, d3_tip, flame_js) == page_text(t2, css, d3, d3_tip, flame_js),
{
    law_render_structural(t1, t2, 0);
}

fn digit_str(d: u64) -> (r: &'static str)
    requires
        d < 10,
    ensures
        r@ == seq![digit_char(d as nat)],
{
    proof {
        reveal_strlit("0");
        reveal_strlit("1");
        reveal_strlit("2");
        reveal_strlit("3");
        reveal_strlit("4");
        reveal_strlit("5");
        reveal_strlit("6");
        reveal_strlit("7");
        reveal_strlit("8");
        reveal_strlit("9");
    }
    if d == 0 {
        "0"
    } else if d == 1 {
        "1"
    } else if d == 2 {
        "2"
    } else if d == 3 {
        "3"
    } else if d == 4 {
        "4"
    } else if d == 5 {
        "5"
    } else if d == 6 {
        "6"
    } else if d == 7 {
        "7"
    } else if d == 8 {
        "8"
    } else {
        "9"
    }
}

/// Appends `n` in decimal to `out`.
pub fn push_decimal(out: &mut String, n: u64)
    ensures
        final(out)@ == old(out)@ + decimal(n as nat),
    decreases n,
{
    if n >= 10 {
        push_decimal(out, n / 10);
    }
    out.append(digit_str(n % 10));
    assert(final(out)@ =~= old(out)@ + decimal(n as nat));
}

/// Writes a call tree as a flame graph page into a text buffer.
pub struct HTMLFlameGraphWritter {
    pub out: String,
}

impl HTMLFlameGraphWritter {
    pub fn new() -> (r: HTMLFlameGraphWritter)
        ensures
            r.out@ == Seq::<char>::empty(),
    {
        HTMLFlameGraphWritter { out: String::new() }
    }

    /// Appends the page for `root_item`, around the given style sheet and scripts.
    pub fn write_flamegraph(
        &mut self,
        root_item: &CallTree,
        css: &str,
        d3: &str,
        d3_tip: &str,
        flame_js: &str,
    )
        requires
            root_item.wf(),
        ensures
            final(self).out@ == old(self).out@ + page_text(*root_item, css@, d3@, d3_tip@, flame_js@),
    {
        self.write_header(css, d3, d3_tip, flame_js);
        self.write_stack_item(root_item, 0);
        self.write_footer();
        assert(final(self).out@ =~= old(self).out@ + page_text(*root_item, css@, d3@, d3_tip@, flame_js@));
    }

    pub fn is_root(&self, t: &CallTree, i: usize) -> (r: bool)
        requires
            t.wf(),
            i < t.size(),
        ensures
            r == (t.nodes@[i as int].parent is None),
            r == (i == 0),
    {
        t.nodes[i].parent.is_none()
    }

    /// Appends the text of node `i` and everything below it.
    pub fn write_stack_item(&mut self, t: &CallTree, i: usize)
        requires
            t.wf(),
            i < t.size(),
        ensures
            final(self).out@ == old(self).out@ + item_text(*t, i as int),
        decreases t.size() - i,
    {
        let root = self.is_root(t, i);
        let item = &t.nodes[i];
        if !root {
            self.out.append("{ name: \"");
            self.out.append(item.label.as_str());
            self.out.append("\", value: ");
            push_decimal(&mut self.out, item.duration);
            self.out.append(", children: [");
        }
        let ghost before = self.out@;
        let mut k: usize = 0;
        while k < item.children.len()
            invariant
                t.wf(),
                i < t.size(),
                item == t.nodes@[i as int],
                k <= item.children@.len(),
                self.out@ == before + children_text(*t, i as int, k as int),
            decreases item.children@.len() - k,
        {
            let c = item.children[k];
            assert(i < c < t.size());
            self.write_stack_item(t, c);
            self.out.append(",");
            assert(self.out@ =~= before + children_text(*t, i as int, k as int + 1));
            k = k + 1;
        }
        if !root {
            self.out.append("] }");
        }
        assert(final(self).out@ =~= old(self).out@ + item_text(*t, i as int));
    }

    pub fn write_header(&mut self, css: &str, d3: &str, d3_tip: &str, flame_js: &str)
        ensures
            final(self).out@ == old(self).out@ + PAGE_OPEN@ + css@ + STYLE_CLOSE@ + d3@
                + SCRIPT_SEPARATOR@ + d3_tip@ + SCRIPT_SEPARATOR@ + flame_js@ + DATA_OPEN@,
    {
        self.out.append(PAGE_OPEN);
        self.out.append(css);
        self.out.append(STYLE_CLOSE);
        self.out.append(d3);
        self.out.append(SCRIPT_SEPARATOR);
        self.out.append(d3_tip);
        self.out.append(SCRIPT_SEPARATOR);
        self.out.append(flame_js);
        self.out.append(DATA_OPEN);
    }

    pub fn write_footer(&mut self)
        ensures
            final(self).out@ == old(self).out@ + PAGE_CLOSE@,
    {
        self.out.append(PAGE_CLOSE);
    }
}

} // verus!
