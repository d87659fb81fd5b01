//! How much room the lines of the browser take: a folded line, a line
//! with its children below it, and the rows of the file explorer.

use crate::display::outline::{is_line_of, UIStateNode, UITree};
use crate::display::route::{grown, lemma_grown_same, lemma_grown_twice};
use crate::display::window::{fits, in_range, CursesBox, Position};
use crate::lazy::LazySupplier;
use crate::tree::{Shape, Tree};
use crate::trie::string_of_char;
use vstd::prelude::*;
use vstd::string::*;

verus! {

/// A text with the room that it takes on the screen.
pub struct TextBox {
    /// Whether the text stands out.
    pub highlighted: bool,
    pub text: String,
    pub bounding_box: CursesBox,
}

/// How far the children of a line are indented.
pub const LEFT_ADD: i32 = 3;

/// How many rows lie between a line and the next.
pub const BOTTOM_ADD: i32 = 1;

/// The sum of what the lines below an expanded line add to its height:
/// for each the rows that it takes.
pub open spec fn heights(children: Seq<CursesBox>) -> int
    decreases children.len(),
{
    if children.len() == 0 {
        0
    } else {
        heights(children.drop_last()) + children.last().height - 1 + BOTTOM_ADD
    }
}

/// The greatest width that a line below an expanded line asks for, with
/// its indentation; 0 without lines.
pub open spec fn widest(children: Seq<CursesBox>) -> int
    decreases children.len(),
{
    if children.len() == 0 {
        0
    } else {
        let before = widest(children.drop_last());
        let this = children.last().width + LEFT_ADD + 1;
        if before >= this {
            before
        } else {
            this
        }
    }
}

/// The room of a line that is not expanded: two rows, three columns.
pub fn folded_box(y: i32, x: i32) -> (bounding_box: CursesBox)
    ensures
        bounding_box == (CursesBox { x, y, width: LEFT_ADD, height: 2 }),
{
    CursesBox { x, y, width: LEFT_ADD, height: 2 }
}

/// Where the first line below the line at `(y, x)` is put: one row down
/// and indented; `None` if that is off the range of the coordinates.
pub fn first_child_place(y: i32, x: i32) -> (place: Option<Position>)
    ensures
        place is Some <==> fits(y + 1) && fits(x + LEFT_ADD),
        place matches Some(p) ==> p.y == y + 1 && p.x == x + LEFT_ADD,
{
    let row: i64 = y as i64 + 1;
    let column: i64 = x as i64 + LEFT_ADD as i64;
    if in_range(row) && in_range(column) {
        Some(Position { x: column as i32, y: row as i32 })
    } else {
        None
    }
}

/// The row of the line that follows a line with the room `previous`
/// among its siblings: the row behind the last row of `previous`; `None`
/// if that is off the range of the coordinates.
pub fn next_child_row(previous: &CursesBox) -> (row: Option<i32>)
    ensures
        row is Some <==> fits(previous.y + BOTTOM_ADD + previous.height - 1),
        row matches Some(y) ==> y == previous.y + BOTTOM_ADD + previous.height - 1,
{
    let next: i64 = previous.y as i64 + BOTTOM_ADD as i64 + previous.height as i64 - 1;
    if in_range(next) {
        Some(next as i32)
    } else {
        None
    }
}

/// The room of an expanded line at `(y, x)` whose children have the
/// rooms `children`: one row for itself and the rows of its children; as
/// wide as the widest child asks for. `None` if a number is off the
/// range of the coordinates.
pub fn unfolded_box(y: i32, x: i32, children: &Vec<CursesBox>) -> (bounding_box: Option<CursesBox>)
    ensures
        bounding_box is Some ==> bounding_box->0 == (CursesBox {
            x,
            y,
            width: widest(children@) as i32,
            height: (heights(children@) + 1) as i32,
        }) && fits(widest(children@)) && fits(heights(children@) + 1),
        bounding_box is None ==> exists|n: int|
            0 <= n <= children@.len() && (!fits(#[trigger] heights(children@.take(n)) + 1) || !fits(
                widest(children@.take(n)),
            )),
{
    let mut height: i64 = 0;
    let mut width: i64 = 0;
    let mut i: usize = 0;
    proof {
        assert(children@.take(0) =~= Seq::<CursesBox>::empty());
    }
    while i < children.len()
        invariant
            i <= children@.len(),
            height == heights(children@.take(i as int)),
            width == widest(children@.take(i as int)),
            fits(height + 1),
            fits(width as int),
        decreases children@.len() - i,
    {
        proof {
            assert(children@.take(i + 1).drop_last() =~= children@.take(i as int));
            assert(children@.take(i + 1).last() == children@[i as int]);
        }
        let child = &children[i];
        let taller: i64 = height + child.height as i64 - 1 + BOTTOM_ADD as i64;
        let asked: i64 = child.width as i64 + LEFT_ADD as i64 + 1;
        let wider: i64 = if width >= asked {
            width
        } else {
            asked
        };
        if !(in_range(taller + 1) && in_range(wider)) {
            proof {
                assert(heights(children@.take(i + 1)) == taller);
                assert(widest(children@.take(i + 1)) == wider);
            }
            return None;
        }
        height = taller;
        width = wider;
        i += 1;
    }
    proof {
        assert(children@.take(children@.len() as int) =~= children@);
    }
    Some(CursesBox { x, y, width: width as i32, height: (height + 1) as i32 })
}

/// The room of the row number `index` of the file explorer in a window
/// of the given width; `None` if the number is off the range of the
/// coordinates.
pub fn file_row(index: usize, width: i32) -> (bounding_box: Option<CursesBox>)
    ensures
        bounding_box is Some <==> index <= i32::MAX,
        bounding_box matches Some(b) ==> b == (CursesBox { x: 0, y: index as i32, width, height: 1 }),
{
    if index <= 2147483647 {
        Some(CursesBox { x: 0, y: index as i32, width, height: 1 })
    } else {
        None
    }
}


/// The character of a digit.
pub open spec fn digit_of(d: nat) -> char {
    if d == 0 {
        '0'
    } else if d == 1 {
        '1'
    } else if d == 2 {
        '2'
    } else if d == 3 {
        '3'
    } else if d == 4 {
        '4'
    } else if d == 5 {
        '5'
    } else if d == 6 {
        '6'
    } else if d == 7 {
        '7'
    } else if d == 8 {
        '8'
    } else {
        '9'
    }
}

/// The digits of a number in the decimal system, the first first.
pub open spec fn decimal_of(n: nat) -> Seq<char>
    decreases n,
{
    if n < 10 {
        seq![digit_of(n)]
    } else {
        decimal_of(n / 10).push(digit_of(n % 10))
    }
}

/// The character of a digit.
fn digit(d: usize) -> (character: char)
    requires
        d < 10,
    ensures
        character == digit_of(d as nat),
{
    if d == 0 {
        '0'
    } else if d == 1 {
        '1'
    } else if d == 2 {
        '2'
    } else if d == 3 {
        '3'
    } else if d == 4 {
        '4'
    } else if d == 5 {
        '5'
    } else if d == 6 {
        '6'
    } else if d == 7 {
        '7'
    } else if d == 8 {
        '8'
    } else {
        '9'
    }
}

/// The number written in the decimal system.
pub fn decimal(n: usize) -> (text: String)
    ensures
        text@ == decimal_of(n as nat),
{
    let mut digits: Vec<char> = Vec::new();
    let mut rest = n;
    while rest >= 10
        invariant
            decimal_of(n as nat) == decimal_of(rest as nat) + digits@.reverse(),
        decreases rest,
    {
        let ghost before = digits@;
        digits.push(digit(rest % 10));
        proof {
            let last = digit_of((rest % 10) as nat);
            assert(digits@.reverse() =~= seq![last] + before.reverse());
            assert(decimal_of((rest / 10) as nat).push(last) + before.reverse() =~= decimal_of(
                (rest / 10) as nat,
            ) + digits@.reverse());
        }
        rest = rest / 10;
    }
    let mut text = string_of_char(digit(rest));
    let mut i: usize = digits.len();
    while i > 0
        invariant
            i <= digits@.len(),
            decimal_of(n as nat) == seq![digit_of(rest as nat)] + digits@.reverse(),
            text@ == seq![digit_of(rest as nat)] + digits@.reverse().take(digits@.len() - i),
        decreases i,
    {
        i -= 1;
        let ghost before = text@;
        let letter = string_of_char(digits[i]);
        text.append(letter.as_str());
        proof {
            let r = digits@.reverse();
            let k = digits@.len() - i - 1;
            assert(r[k] == digits@[i as int]);
            assert(r.take(k + 1) =~= r.take(k).push(r[k]));
            assert(before + seq![digits@[i as int]] =~= seq![digit_of(rest as nat)] + r.take(k + 1));
        }
    }
    proof {
        assert(digits@.reverse().take(digits@.len() as int) =~= digits@.reverse());
    }
    text
}

/// What a line says on the screen: its text, a mark that tells whether
/// it is expanded, its count and its depth.
pub open spec fn caption_of(node: UIStateNode) -> Seq<char> {
    node.text@ + (if node.expanded {
        " "@
    } else {
        "... "@
    }) + decimal_of(node.count as nat) + " | "@ + decimal_of(node.max_depth as nat) + " | "@
}

/// What a line says on the screen.
pub fn caption(node: &UIStateNode) -> (text: String)
    ensures
        text@ == caption_of(*node),
{
    let mut text = node.text.clone();
    if node.expanded {
        text.append(" ");
    } else {
        text.append("... ");
    }
    let count = decimal(node.count);
    text.append(count.as_str());
    text.append(" | ");
    let max_depth = decimal(node.max_depth);
    text.append(max_depth.as_str());
    text.append(" | ");
    text
}

/// How deep the expanded lines of a shape go: 0 for a line that is not
/// expanded, else one more than for the deepest of its children.
pub open spec fn unfolded_depth(shape: Shape<UIStateNode>) -> nat
    decreases shape, 0nat,
{
    if !shape.value.expanded {
        0
    } else {
        match shape.kids {
            None => 1,
            Some(kids) => 1 + deepest_unfolded(kids, kids.len()),
        }
    }
}

/// The greatest depth of expanded lines among the first `n` shapes.
pub open spec fn deepest_unfolded(kids: Seq<Shape<UIStateNode>>, n: nat) -> nat
    decreases kids, n,
{
    if n == 0 || n > kids.len() {
        0
    } else {
        let before = deepest_unfolded(kids, (n - 1) as nat);
        let this = unfolded_depth(kids[n - 1]);
        if before >= this {
            before
        } else {
            this
        }
    }
}

/// None of the first `n` shapes goes deeper than the deepest of them.
pub proof fn lemma_deepest_unfolded(kids: Seq<Shape<UIStateNode>>, n: nat, i: int)
    requires
        0 <= i < n <= kids.len(),
    ensures
        unfolded_depth(kids[i]) <= deepest_unfolded(kids, n),
    decreases n,
{
    if i < n - 1 {
        lemma_deepest_unfolded(kids, (n - 1) as nat, i);
    }
}

/// The row of the child number `i` of a line at row `y`, given the boxes
/// of the children before it.
pub open spec fn row_of(children: Seq<Tree<TextBox>>, y: int, i: int) -> int {
    if i == 0 {
        y + 1
    } else {
        children[i - 1].value.bounding_box.y + BOTTOM_ADD + children[i - 1].value.bounding_box.height
            - 1
    }
}

/// The rooms of the trees, in order.
pub open spec fn rooms(children: Seq<Tree<TextBox>>) -> Seq<CursesBox> {
    Seq::new(children.len(), |i: int| children[i].value.bounding_box)
}

/// `dom` is the tree of boxes of the lines of `shape`, laid out from
/// `(y, x)` on: a box for the line itself, with its caption, and, if the
/// line is expanded, the boxes of its children below it, each one row
/// behind the last row of the one before and indented.
pub open spec fn shows(dom: Tree<TextBox>, shape: Shape<UIStateNode>, y: int, x: int) -> bool
    decreases shape,
{
    &&& dom.value.highlighted == shape.value.selected
    &&& dom.value.text@ == caption_of(shape.value)
    &&& if shape.value.expanded {
        &&& shape.kids is Some
        &&& dom.children@.len() == shape.kids->0.len()
        &&& fits(widest(rooms(dom.children@)))
        &&& fits(heights(rooms(dom.children@)) + 1)
        &&& dom.value.bounding_box == (CursesBox {
            x: x as i32,
            y: y as i32,
            width: widest(rooms(dom.children@)) as i32,
            height: (heights(rooms(dom.children@)) + 1) as i32,
        })
        &&& forall|i: int|
            0 <= i < shape.kids->0.len() ==> shows(
                dom.children@[i],
                #[trigger] shape.kids->0[i],
                row_of(dom.children@, y, i),
                x + LEFT_ADD,
            )
    } else {
        &&& dom.children@.len() == 0
        &&& dom.value.bounding_box == (CursesBox {
            x: x as i32,
            y: y as i32,
            width: LEFT_ADD,
            height: 2,
        })
    }
}

/// The rows that the lines of a shape take: two for a line that is not
/// expanded; else one, and those of the lines below it.
pub open spec fn tall(shape: Shape<UIStateNode>) -> int
    decreases shape, 0nat,
{
    if !shape.value.expanded {
        2
    } else {
        match shape.kids {
            None => 1,
            Some(kids) => 1 + sum_tall(kids, kids.len()),
        }
    }
}

/// The rows that the first `n` of the shapes add to the height of the
/// line above them.
pub open spec fn sum_tall(kids: Seq<Shape<UIStateNode>>, n: nat) -> int
    decreases kids, n,
{
    if n == 0 || n > kids.len() {
        0
    } else {
        sum_tall(kids, (n - 1) as nat) + tall(kids[n - 1]) - 1 + BOTTOM_ADD
    }
}

/// The columns that the lines of a shape ask for: three for a line that
/// is not expanded; else what the widest line below it asks for, with
/// its indentation.
pub open spec fn wide(shape: Shape<UIStateNode>) -> int
    decreases shape, 0nat,
{
    if !shape.value.expanded {
        LEFT_ADD as int
    } else {
        match shape.kids {
            None => 0,
            Some(kids) => max_wide(kids, kids.len()),
        }
    }
}

/// The greatest width that one of the first `n` shapes asks for, with
/// its indentation.
pub open spec fn max_wide(kids: Seq<Shape<UIStateNode>>, n: nat) -> int
    decreases kids, n,
{
    if n == 0 || n > kids.len() {
        0
    } else {
        let before = max_wide(kids, (n - 1) as nat);
        let this = wide(kids[n - 1]) + LEFT_ADD + 1;
        if before >= this {
            before
        } else {
            this
        }
    }
}

/// The lines of the shape can be laid out from `(y, x)` on without a
/// number leaving the range of the coordinates, and the children of
/// every expanded line are made.
pub open spec fn can_lay_out(shape: Shape<UIStateNode>, y: int, x: int) -> bool
    decreases shape,
{
    &&& fits(y)
    &&& fits(x)
    &&& shape.value.expanded ==> match shape.kids {
        None => false,
        Some(kids) => fits(tall(shape)) && fits(wide(shape)) && forall|i: int|
            0 <= i < kids.len() ==> can_lay_out(
                #[trigger] kids[i],
                y + 1 + sum_tall(kids, i as nat),
                x + LEFT_ADD,
            ),
    }
}

/// Every shape takes a row at least, and asks for no negative width.
pub proof fn lemma_tall_positive(shape: Shape<UIStateNode>)
    ensures
        tall(shape) >= 1,
        wide(shape) >= 0,
    decreases shape, 0nat,
{
    if shape.value.expanded {
        match shape.kids {
            None => {},
            Some(kids) => {
                lemma_sums_rise(kids, 0, kids.len());
            },
        }
    }
}

/// The sums over the first shapes do not fall when more shapes are
/// taken in, and are not negative.
pub proof fn lemma_sums_rise(kids: Seq<Shape<UIStateNode>>, m: nat, n: nat)
    requires
        m <= n <= kids.len(),
    ensures
        0 <= sum_tall(kids, m) <= sum_tall(kids, n),
        0 <= max_wide(kids, m) <= max_wide(kids, n),
    decreases kids, n,
{
    if n > 0 {
        lemma_tall_positive(kids[n - 1]);
        if m < n {
            lemma_sums_rise(kids, m, (n - 1) as nat);
        } else {
            lemma_sums_rise(kids, (n - 1) as nat, (n - 1) as nat);
        }
    }
}

/// The sums over the first `n` shapes only depend on those shapes.
pub proof fn lemma_sums_of_first(
    a: Seq<Shape<UIStateNode>>,
    b: Seq<Shape<UIStateNode>>,
    n: nat,
)
    requires
        n <= a.len(),
        n <= b.len(),
        forall|k: int| 0 <= k < n ==> a[k] == b[k],
    ensures
        sum_tall(a, n) == sum_tall(b, n),
        max_wide(a, n) == max_wide(b, n),
    decreases n,
{
    if n > 0 {
        lemma_sums_of_first(a, b, (n - 1) as nat);
    }
}

/// Where each of the first `n` boxes has the height and the width of its
/// shape, the boxes add up to what the shapes add up to.
pub proof fn lemma_rooms_sum(
    boxes: Seq<CursesBox>,
    kids: Seq<Shape<UIStateNode>>,
    n: nat,
)
    requires
        n <= boxes.len(),
        n <= kids.len(),
        forall|k: int|
            0 <= k < n ==> (#[trigger] boxes[k]).height == tall(kids[k]) && boxes[k].width == wide(
                kids[k],
            ),
    ensures
        heights(boxes.take(n as int)) == sum_tall(kids, n),
        widest(boxes.take(n as int)) == max_wide(kids, n),
    decreases n,
{
    if n > 0 {
        lemma_rooms_sum(boxes, kids, (n - 1) as nat);
        assert(boxes.take(n as int).drop_last() =~= boxes.take(n - 1));
        assert(boxes.take(n as int).last() == boxes[n - 1]);
    } else {
        assert(boxes.take(0).len() == 0);
    }
}

/// The tree of boxes of the lines of `ui_tree`, laid out from `(y, x)`
/// on. The children of expanded lines are made first unless they are
/// there. `None` if a box would leave the range of the coordinates.
pub fn create_dom(ui_tree: &mut UITree, y: i32, x: i32) -> (dom: Option<Tree<TextBox>>)
    ensures
        grown(old(ui_tree)@, final(ui_tree)@),
        dom is Some <==> can_lay_out(final(ui_tree)@, y as int, x as int),
        dom matches Some(tree) ==> shows(tree, final(ui_tree)@, y as int, x as int)
            && tree.value.bounding_box.y == y && tree.value.bounding_box.x == x
            && tree.value.bounding_box.height == tall(final(ui_tree)@)
            && tree.value.bounding_box.width == wide(final(ui_tree)@),
    decreases unfolded_depth(old(ui_tree)@),
{
    let text = caption(&ui_tree.value);
    let highlighted = ui_tree.value.selected;
    proof {
        ui_tree.lemma_shape();
    }
    if !ui_tree.value.expanded {
        proof {
            lemma_grown_same(ui_tree@);
        }
        let dom = Tree {
            value: TextBox { highlighted, text, bounding_box: folded_box(y, x) },
            children: Vec::new(),
        };
        return Some(dom);
    }
    let n = ui_tree.children().len();
    let ghost made = *ui_tree;
    proof {
        made.lemma_shape();
        old(ui_tree).lemma_shape();
        assert(grown(old(ui_tree)@, made@)) by {
            match old(ui_tree)@.kids {
                None => {},
                Some(kids) => {
                    assert(made@.kids->0 =~= kids);
                    assert forall|i: int| 0 <= i < kids.len() implies grown(
                        #[trigger] kids[i],
                        made@.kids->0[i],
                    ) by {
                        lemma_grown_same(kids[i]);
                    }
                },
            }
        }
        // lines that have just been made are not expanded
        assert forall|i: int| 0 <= i < n implies unfolded_depth(#[trigger] made@.kids->0[i])
            < unfolded_depth(old(ui_tree)@) by {
            match old(ui_tree)@.kids {
                None => {
                    assert(old(ui_tree).children.supplier.supplies(made.children.t->0));
                    assert(is_line_of(
                        made.children.t->0@[i],
                        old(ui_tree).children.supplier.graph(),
                        old(ui_tree).children.supplier.refs()[i],
                        false,
                    ));
                    made.kids()[i].lemma_shape();
                },
                Some(kids) => {
                    assert(made@.kids->0 =~= kids);
                    lemma_deepest_unfolded(kids, kids.len(), i);
                },
            }
        }
    }
    if n == 0 {
        proof {
            lemma_grown_same(made@);
            assert(rooms(Seq::<Tree<TextBox>>::empty()) =~= Seq::<CursesBox>::empty());
        }
        let children: Vec<Tree<TextBox>> = Vec::new();
        let dom = Tree {
            value: TextBox {
                highlighted,
                text,
                bounding_box: CursesBox { x, y, width: 0, height: 1 },
            },
            children,
        };
        proof {
            assert(rooms(dom.children@) =~= Seq::<CursesBox>::empty());
        }
        return Some(dom);
    }
    let place = match first_child_place(y, x) {
        Some(place) => place,
        None => {
            proof {
                lemma_grown_same(made@);
                assert(!can_lay_out(made@.kids->0[0], y + 1 + sum_tall(made@.kids->0, 0), x + LEFT_ADD));
            }
            return None;
        },
    };
    let mut children: Vec<Tree<TextBox>> = Vec::new();
    let mut boxes: Vec<CursesBox> = Vec::new();
    let mut i: usize = 0;
    while i < n
        invariant
            i <= n,
            n == made@.kids->0.len(),
            made@.kids is Some,
            grown(old(ui_tree)@, made@),
            ui_tree.made(),
            ui_tree.kids().len() == n,
            ui_tree@.value == made@.value,
            ui_tree.value == made.value,
            ui_tree@.kids is Some,
            ui_tree@.kids->0.len() == n,
            place.y == y + 1,
            place.x == x + LEFT_ADD,
            children@.len() == i,
            boxes@ == rooms(children@),
            forall|k: int| i <= k < n ==> #[trigger] ui_tree@.kids->0[k] == made@.kids->0[k],
            forall|k: int| 0 <= k < i ==> grown(#[trigger] made@.kids->0[k], ui_tree@.kids->0[k]),
            forall|k: int|
                0 <= k < i ==> shows(
                    children@[k],
                    #[trigger] ui_tree@.kids->0[k],
                    row_of(children@, y as int, k),
                    x + LEFT_ADD,
                ),
            forall|k: int|
                0 <= k < n ==> unfolded_depth(#[trigger] made@.kids->0[k]) < unfolded_depth(
                    old(ui_tree)@,
                ),
            forall|k: int|
                0 <= k < i ==> {
                    let room = #[trigger] boxes@[k];
                    &&& room.height == tall(ui_tree@.kids->0[k])
                    &&& room.width == wide(ui_tree@.kids->0[k])
                    &&& room.y == y + 1 + sum_tall(ui_tree@.kids->0, k as nat)
                    &&& can_lay_out(ui_tree@.kids->0[k], room.y as int, x + LEFT_ADD)
                },
        decreases n - i,
    {
        let row = if i == 0 {
            place.y
        } else {
            match next_child_row(&boxes[i - 1]) {
                Some(row) => row,
                None => {
                    proof {
                        lemma_grown_all(made@, ui_tree@, i as int);
                        lemma_grown_twice(old(ui_tree)@, made@, ui_tree@);
                        let kids = ui_tree@.kids->0;
                        assert(boxes@[i - 1].y + BOTTOM_ADD + boxes@[i - 1].height - 1 == y + 1
                            + sum_tall(kids, i as nat));
                        assert(!can_lay_out(kids[i as int], y + 1 + sum_tall(kids, i as nat), x
                            + LEFT_ADD));
                    }
                    return None;
                },
            }
        };
        proof {
            let kids = ui_tree@.kids->0;
            if i > 0 {
                assert(boxes@[i - 1].y + BOTTOM_ADD + boxes@[i - 1].height - 1 == y + 1
                    + sum_tall(kids, i as nat));
            }
            assert(row == y + 1 + sum_tall(kids, i as nat));
        }
        let ghost before = *ui_tree;
        let ghost shapes = ui_tree@.kids->0;
        let ghost done = children@;
        proof {
            ui_tree.lemma_shape();
        }
        let child = ui_tree.child_mut(i);
        let ghost start = *child;
        proof {
            assert(start@ == shapes[i as int]);
            assert(shapes[i as int] == made@.kids->0[i as int]);
        }
        let sub = create_dom(child, row, place.x);
        proof {
            ui_tree.lemma_shape();
            before.lemma_shape();
            assert(ui_tree@.kids->0 =~= shapes.update(i as int, child@));
        }
        proof {
            let kids = ui_tree@.kids->0;
            assert forall|k: nat| k <= i implies #[trigger] sum_tall(kids, k) == sum_tall(shapes, k)
                && max_wide(kids, k) == max_wide(shapes, k) by {
                lemma_sums_of_first(kids, shapes, k);
            }
        }
        match sub {
            None => {
                proof {
                    assert(!can_lay_out(
                        ui_tree@.kids->0[i as int],
                        y + 1 + sum_tall(ui_tree@.kids->0, i as nat),
                        x + LEFT_ADD,
                    ));
                    assert forall|k: int| 0 <= k < i + 1 implies grown(
                        #[trigger] made@.kids->0[k],
                        ui_tree@.kids->0[k],
                    ) by {
                        if k < i {
                            assert(ui_tree@.kids->0[k] == shapes[k]);
                        }
                    }
                    assert forall|k: int| i + 1 <= k < n implies #[trigger] ui_tree@.kids->0[k]
                        == made@.kids->0[k] by {
                        assert(ui_tree@.kids->0[k] == shapes[k]);
                    }
                    lemma_grown_all(made@, ui_tree@, i + 1);
                    lemma_grown_twice(old(ui_tree)@, made@, ui_tree@);
                }
                return None;
            },
            Some(tree) => {
                boxes.push(tree.value.bounding_box);
                children.push(tree);
                proof {
                    assert(boxes@ =~= rooms(children@));
                    assert forall|k: int| 0 <= k < i + 1 implies {
                        let room = #[trigger] boxes@[k];
                        &&& room.height == tall(ui_tree@.kids->0[k])
                        &&& room.width == wide(ui_tree@.kids->0[k])
                        &&& room.y == y + 1 + sum_tall(ui_tree@.kids->0, k as nat)
                        &&& can_lay_out(ui_tree@.kids->0[k], room.y as int, x + LEFT_ADD)
                    } by {
                        if k < i {
                            assert(ui_tree@.kids->0[k] == shapes[k]);
                        }
                    }
                    assert forall|k: int| 0 <= k < i + 1 implies grown(
                        #[trigger] made@.kids->0[k],
                        ui_tree@.kids->0[k],
                    ) by {
                        if k < i {
                            assert(ui_tree@.kids->0[k] == shapes[k]);
                        }
                    }
                    assert forall|k: int| i + 1 <= k < n implies #[trigger] ui_tree@.kids->0[k]
                        == made@.kids->0[k] by {
                        assert(ui_tree@.kids->0[k] == shapes[k]);
                    }
                    assert forall|k: int| 0 <= k < i + 1 implies shows(
                        children@[k],
                        #[trigger] ui_tree@.kids->0[k],
                        row_of(children@, y as int, k),
                        x + LEFT_ADD,
                    ) by {
                        if k < i {
                            assert(ui_tree@.kids->0[k] == shapes[k]);
                            assert(children@[k] == done[k]);
                            assert(row_of(children@, y as int, k) == row_of(done, y as int, k)) by {
                                if k > 0 {
                                    assert(children@[k - 1] == done[k - 1]);
                                }
                            }
                        } else {
                            if i > 0 {
                                assert(children@[i - 1] == done[i - 1]);
                                assert(boxes@[i - 1] == done[i - 1].value.bounding_box);
                            }
                        }
                    }
                }
            },
        }
        i += 1;
    }
    proof {
        lemma_grown_all(made@, ui_tree@, n as int);
        lemma_grown_twice(old(ui_tree)@, made@, ui_tree@);
    }
    proof {
        let kids = ui_tree@.kids->0;
        assert forall|m: nat| m <= n implies heights(#[trigger] boxes@.take(m as int))
            == sum_tall(kids, m) && widest(boxes@.take(m as int)) == max_wide(kids, m) by {
            lemma_rooms_sum(boxes@, kids, m);
        }
        assert(boxes@.take(n as int) =~= boxes@);
        assert forall|m: nat| m <= n implies 0 <= #[trigger] sum_tall(kids, m) <= sum_tall(
            kids,
            n as nat,
        ) && 0 <= max_wide(kids, m) <= max_wide(kids, n as nat) by {
            lemma_sums_rise(kids, m, n as nat);
        }
    }
    match unfolded_box(y, x, &boxes) {
        None => {
            proof {
                let kids = ui_tree@.kids->0;
                let m = choose|m: int|
                    0 <= m <= boxes@.len() && (!fits(#[trigger] heights(boxes@.take(m)) + 1)
                        || !fits(widest(boxes@.take(m))));
                assert(heights(boxes@.take(m)) == sum_tall(kids, m as nat));
                assert(sum_tall(kids, m as nat) <= sum_tall(kids, n as nat));
                assert(max_wide(kids, m as nat) <= max_wide(kids, n as nat));
            }
            None
        },
        Some(bounding_box) => {
            let dom = Tree { value: TextBox { highlighted, text, bounding_box }, children };
            proof {
                let kids = ui_tree@.kids->0;
                assert forall|k: int| 0 <= k < kids.len() implies can_lay_out(
                    #[trigger] kids[k],
                    y + 1 + sum_tall(kids, k as nat),
                    x + LEFT_ADD,
                ) by {
                    assert(boxes@[k].y == y + 1 + sum_tall(kids, k as nat));
                }
            }
            Some(dom)
        },
    }
}

/// A shape whose first `n` children have grown, and whose other
/// children are the same, has grown.
pub proof fn lemma_grown_all(before: Shape<UIStateNode>, after: Shape<UIStateNode>, n: int)
    requires
        before.kids is Some,
        after.kids is Some,
        after.value == before.value,
        after.kids->0.len() == before.kids->0.len(),
        0 <= n <= before.kids->0.len(),
        forall|k: int| 0 <= k < n ==> grown(#[trigger] before.kids->0[k], after.kids->0[k]),
        forall|k: int|
            n <= k < before.kids->0.len() ==> #[trigger] after.kids->0[k] == before.kids->0[k],
    ensures
        grown(before, after),
{
    let kids = before.kids->0;
    assert forall|k: int| 0 <= k < kids.len() implies grown(#[trigger] kids[k], after.kids->0[k]) by {
        if k >= n {
            lemma_grown_same(kids[k]);
        }
    }
}

} // verus!
