//! The expression model and its two ways of generating witnesses.
use itertools::Itertools;
use vstd::arithmetic::div_mod::lemma_fundamental_div_mod_converse;
use vstd::prelude::*;
use vstd::string::StringExecFns;

verus! {

/// How many times a repetition is listed at most, unless it is asked for
/// more or fewer.
pub const REPETITIONS: usize = 2;

/// What a pattern means: a description of a set of strings.
#[derive(Debug, PartialEq, Eq)]
pub enum Expression {
    /// Exactly this string.
    Literal(String),
    /// One witness of each part, one after the other.
    Sequence(Vec<Expression>),
    /// A witness of one of the alternatives.
    Alternate(Vec<Expression>),
    /// A witness of the inner expression, or nothing.
    Optional(Box<Expression>),
    /// Witnesses of the inner expression, repeated.
    Star(Box<Expression>),
}

/// An expression as a mathematical value.
pub enum ExpressionView {
    Literal(Seq<char>),
    Sequence(Seq<ExpressionView>),
    Alternate(Seq<ExpressionView>),
    Optional(Box<ExpressionView>),
    Star(Box<ExpressionView>),
}

impl View for Expression {
    type V = ExpressionView;

    open spec fn view(&self) -> ExpressionView
        decreases self,
    {
        match self {
            Expression::Literal(text) => ExpressionView::Literal(text@),
            Expression::Sequence(parts) => ExpressionView::Sequence(
                Seq::new(
                    parts.len() as nat,
                    |i: int|
                        if 0 <= i < parts.len() {
                            parts[i]@
                        } else {
                            ExpressionView::Literal(Seq::empty())
                        },
                ),
            ),
            Expression::Alternate(choices) => ExpressionView::Alternate(
                Seq::new(
                    choices.len() as nat,
                    |i: int|
                        if 0 <= i < choices.len() {
                            choices[i]@
                        } else {
                            ExpressionView::Literal(Seq::empty())
                        },
                ),
            ),
            Expression::Optional(inner) => ExpressionView::Optional(Box::new((**inner)@)),
            Expression::Star(inner) => ExpressionView::Star(Box::new((**inner)@)),
        }
    }
}

/// The views of a list of expressions, one for one.
pub open spec fn expression_views(expressions: Seq<Expression>) -> Seq<ExpressionView> {
    Seq::new(expressions.len(), |i: int| expressions[i]@)
}

/// The views of a list of strings, one for one.
pub open spec fn strings_view(strings: Seq<String>) -> Seq<Seq<char>> {
    Seq::new(strings.len(), |i: int| strings[i]@)
}

/// The views of a list of pairs of strings, one for one.
pub open spec fn pairs_view(pairs: Seq<(&String, &String)>) -> Seq<(Seq<char>, Seq<char>)> {
    Seq::new(pairs.len(), |i: int| (pairs[i].0@, pairs[i].1@))
}

/// Every pair of an item of `left` with an item of `right`: the pairs of the
/// first item of `left` come first, in the order of `right`, then those of the
/// second, and so on.
pub open spec fn product_spec<A, B>(left: Seq<A>, right: Seq<B>) -> Seq<(A, B)> {
    Seq::new(
        left.len() * right.len(),
        |k: int| (left[k / (right.len() as int)], right[k % (right.len() as int)]),
    )
}

/// Every item of `left` followed by every item of `right`, in the order of
/// the pairs.
pub open spec fn cross_spec(left: Seq<Seq<char>>, right: Seq<Seq<char>>) -> Seq<Seq<char>> {
    Seq::new(
        left.len() * right.len(),
        |k: int| left[k / (right.len() as int)] + right[k % (right.len() as int)],
    )
}

impl ExpressionView {
    /// Whether every choice in the expression has an alternative to choose.
    pub open spec fn wf(self) -> bool
        decreases self,
    {
        match self {
            ExpressionView::Literal(_) => true,
            ExpressionView::Sequence(parts) => forall|i: int|
                0 <= i < parts.len() ==> (#[trigger] parts[i]).wf(),
            ExpressionView::Alternate(choices) => choices.len() > 0 && forall|i: int|
                0 <= i < choices.len() ==> (#[trigger] choices[i]).wf(),
            ExpressionView::Optional(inner) => inner.wf(),
            ExpressionView::Star(inner) => inner.wf(),
        }
    }

    /// The one witness that stands for the expression: the first alternative
    /// of every choice, and one repetition where something may be left out or
    /// repeated.
    pub open spec fn example(self) -> Seq<char>
        decreases self, 0int,
    {
        match self {
            ExpressionView::Literal(text) => text,
            ExpressionView::Sequence(parts) => Self::examples(parts),
            ExpressionView::Alternate(choices) => if choices.len() > 0 {
                choices[0].example()
            } else {
                Seq::empty()
            },
            ExpressionView::Optional(inner) => inner.example(),
            ExpressionView::Star(inner) => inner.example(),
        }
    }

    /// The witnesses of the expressions of a list, one after the other.
    pub open spec fn examples(parts: Seq<ExpressionView>) -> Seq<char>
        decreases parts, 0int,
    {
        if parts.len() == 0 {
            Seq::empty()
        } else {
            Self::examples(parts.drop_last()) + parts.last().example()
        }
    }

    /// The witnesses that are listed for the expression, in their order,
    /// where every repetition in it is listed up to `most` times.
    pub open spec fn enumerate_up_to(self, most: nat) -> Seq<Seq<char>>
        decreases self, 0int,
    {
        match self {
            ExpressionView::Literal(text) => seq![text],
            ExpressionView::Sequence(parts) => Self::products(parts, most),
            ExpressionView::Alternate(choices) => Self::unions(choices, most),
            ExpressionView::Optional(inner) => inner.enumerate_up_to(most).push(Seq::empty()),
            ExpressionView::Star(inner) => repetitions_spec(inner.enumerate_up_to(most), most),
        }
    }

    /// The witnesses of a list of parts that follow one another: starting
    /// from the empty string alone, each part in turn crosses what was
    /// gathered with its own witnesses.
    pub open spec fn products(parts: Seq<ExpressionView>, most: nat) -> Seq<Seq<char>>
        decreases parts, 0int,
    {
        if parts.len() == 0 {
            seq![Seq::<char>::empty()]
        } else {
            cross_spec(
                Self::products(parts.drop_last(), most),
                parts.last().enumerate_up_to(most),
            )
        }
    }

    /// The witnesses of a list of alternatives: those of the first, then
    /// those of the second, and so on.
    pub open spec fn unions(choices: Seq<ExpressionView>, most: nat) -> Seq<Seq<char>>
        decreases choices, 0int,
    {
        if choices.len() == 0 {
            Seq::empty()
        } else {
            Self::unions(choices.drop_last(), most) + choices.last().enumerate_up_to(most)
        }
    }

    /// The witnesses that are listed for the expression, in their order.
    ///
    /// A repetition lists nothing, then each witness of what is repeated,
    /// then each pair of them: no more than two repetitions.
    pub open spec fn enumerate(self) -> Seq<Seq<char>> {
        self.enumerate_up_to(REPETITIONS as nat)
    }
}

/// The strings that are made of exactly `count` strings of `items`, one
/// after the other.
pub open spec fn powers_spec(items: Seq<Seq<char>>, count: nat) -> Seq<Seq<char>>
    decreases count,
{
    if count == 0 {
        seq![Seq::<char>::empty()]
    } else {
        cross_spec(powers_spec(items, (count - 1) as nat), items)
    }
}

/// The strings that are made of up to `most` strings of `items`: first the
/// empty string, then the items, then the pairs of them, and so on.
pub open spec fn repetitions_spec(items: Seq<Seq<char>>, most: nat) -> Seq<Seq<char>>
    decreases most,
{
    if most == 0 {
        powers_spec(items, 0)
    } else {
        repetitions_spec(items, (most - 1) as nat) + powers_spec(items, most)
    }
}

/// Calls `Itertools::cartesian_product` of itertools on the two lists and
/// collects what it yields. The contract claims what the adaptor's source
/// shows: it walks `left` once, and for each of its items walks all of
/// `right`, yielding the pair of the two.
#[verifier::external_body]
fn cartesian_product<'a>(left: &'a Vec<String>, right: &'a Vec<String>) -> (pairs: Vec<
    (&'a String, &'a String),
>)
    ensures
        pairs_view(pairs@) == product_spec(strings_view(left@), strings_view(right@)),
{
    left.iter().cartesian_product(right).collect()
}

/// An expression is viewed as the list of its parts' views.
pub broadcast proof fn lemma_sequence_view(parts: Vec<Expression>)
    ensures
        #[trigger] Expression::Sequence(parts)@ == ExpressionView::Sequence(
            expression_views(parts@),
        ),
{
    assert(Expression::Sequence(parts)@->Sequence_0 =~= expression_views(parts@));
}

/// A choice is viewed as the list of its alternatives' views.
pub broadcast proof fn lemma_alternate_view(choices: Vec<Expression>)
    ensures
        #[trigger] Expression::Alternate(choices)@ == ExpressionView::Alternate(
            expression_views(choices@),
        ),
{
    assert(Expression::Alternate(choices)@->Alternate_0 =~= expression_views(choices@));
}

/// Viewing commutes with adding a string at the end.
pub broadcast proof fn lemma_strings_view_push(strings: Seq<String>, string: String)
    ensures
        #[trigger] strings_view(strings.push(string)) == strings_view(strings).push(string@),
{
    assert(strings_view(strings.push(string)) =~= strings_view(strings).push(string@));
}

/// Viewing commutes with putting one list of strings after another.
pub broadcast proof fn lemma_strings_view_add(first: Seq<String>, second: Seq<String>)
    ensures
        #[trigger] strings_view(first + second) == strings_view(first) + strings_view(second),
{
    assert(strings_view(first + second) =~= strings_view(first) + strings_view(second));
}

/// No strings have no views.
pub broadcast proof fn lemma_strings_view_empty()
    ensures
        #[trigger] strings_view(Seq::<String>::empty()) == Seq::<Seq<char>>::empty(),
{
    assert(strings_view(Seq::<String>::empty()) =~= Seq::<Seq<char>>::empty());
}

/// How the views of lists follow the lists themselves.
pub broadcast group group_views {
    lemma_sequence_view,
    lemma_alternate_view,
    lemma_strings_view_push,
    lemma_strings_view_add,
    lemma_strings_view_empty,
}

/// Joins the two strings of each pair.
fn join(pairs: Vec<(&String, &String)>) -> (joined: Vec<String>)
    ensures
        joined@.len() == pairs@.len(),
        forall|k: int|
            0 <= k < pairs@.len() ==> (#[trigger] joined@[k])@ == pairs@[k].0@ + pairs@[k].1@,
{
    let mut joined: Vec<String> = Vec::new();
    let mut index: usize = 0;
    while index < pairs.len()
        invariant
            index <= pairs.len(),
            joined@.len() == index,
            forall|k: int|
                0 <= k < index ==> (#[trigger] joined@[k])@ == pairs@[k].0@ + pairs@[k].1@,
        decreases pairs.len() - index,
    {
        let pair = &pairs[index];
        let mut both = String::new();
        both.append(pair.0.as_str());
        both.append(pair.1.as_str());
        joined.push(both);
        index = index + 1;
    }
    joined
}

/// Every string of `left` followed by every string of `right`: all of
/// `right` for the first of `left`, then for the second, and so on.
pub fn cross(left: &Vec<String>, right: &Vec<String>) -> (crossed: Vec<String>)
    ensures
        strings_view(crossed@) == cross_spec(strings_view(left@), strings_view(right@)),
{
    let pairs = cartesian_product(left, right);
    let crossed = join(pairs);
    proof {
        let expected = product_spec(strings_view(left@), strings_view(right@));
        assert(pairs_view(pairs@).len() == pairs@.len());
        assert forall|k: int| 0 <= k < crossed@.len() implies #[trigger] strings_view(crossed@)[k]
            == cross_spec(strings_view(left@), strings_view(right@))[k] by {
            assert(pairs_view(pairs@)[k] == expected[k]);
        }
        assert(strings_view(crossed@) =~= cross_spec(strings_view(left@), strings_view(right@)));
    }
    crossed
}

/// A list of the same strings.
fn copy(strings: &Vec<String>) -> (copied: Vec<String>)
    ensures
        strings_view(copied@) == strings_view(strings@),
{
    let mut copied: Vec<String> = Vec::new();
    let mut index: usize = 0;
    while index < strings.len()
        invariant
            index <= strings.len(),
            copied@.len() == index,
            forall|k: int| 0 <= k < index ==> (#[trigger] copied@[k])@ == strings@[k]@,
        decreases strings.len() - index,
    {
        copied.push(strings[index].clone());
        index = index + 1;
    }
    assert(strings_view(copied@) =~= strings_view(strings@));
    copied
}

/// The strings that are made of up to `most` strings of `items`, those made
/// of fewer strings first.
pub fn repetitions(items: &Vec<String>, most: usize) -> (listed: Vec<String>)
    ensures
        strings_view(listed@) == repetitions_spec(strings_view(items@), most as nat),
{
    broadcast use group_views;

    let mut power: Vec<String> = Vec::new();
    power.push(String::new());
    let mut listed = copy(&power);
    let mut count: usize = 0;
    while count < most
        invariant
            count <= most,
            strings_view(power@) == powers_spec(strings_view(items@), count as nat),
            strings_view(listed@) == repetitions_spec(strings_view(items@), count as nat),
        decreases most - count,
    {
        power = cross(&power, items);
        count = count + 1;
        let mut more = copy(&power);
        listed.append(&mut more);
    }
    listed
}

impl Expression {
    /// One witness of the expression: the first alternative of every choice,
    /// and one repetition of what may be left out or repeated.
    pub fn example(&self) -> (witness: String)
        requires
            self@.wf(),
        ensures
            witness@ == self@.example(),
        decreases self,
    {
        broadcast use group_views;

        match self {
            Expression::Literal(text) => text.clone(),
            Expression::Sequence(parts) => {
                assert(self@->Sequence_0 == expression_views(parts@));
                let mut witness = String::new();
                let mut index: usize = 0;
                while index < parts.len()
                    invariant
                        index <= parts.len(),
                        self@ == ExpressionView::Sequence(expression_views(parts@)),
                        forall|k: int|
                            0 <= k < parts.len() ==> (#[trigger] expression_views(parts@)[k]).wf(),
                        forall|k: int| 0 <= k < parts.len() ==> decreases_to!(self => #[trigger] parts[k]),
                        witness@ == ExpressionView::examples(
                            expression_views(parts@).take(index as int),
                        ),
                    decreases parts.len() - index,
                {
                    assert(expression_views(parts@).take(index + 1).drop_last() =~= expression_views(
                        parts@,
                    ).take(index as int));
                    assert(expression_views(parts@)[index as int] == parts[index as int]@);
                    let part = parts[index].example();
                    witness.append(part.as_str());
                    index = index + 1;
                }
                assert(expression_views(parts@).take(index as int) =~= expression_views(parts@));
                witness
            },
            Expression::Alternate(choices) => {
                assert(expression_views(choices@)[0].wf());
                choices[0].example()
            },
            Expression::Optional(inner) => inner.example(),
            Expression::Star(inner) => inner.example(),
        }
    }

    /// The witnesses that are listed for the expression, in their order,
    /// where every repetition in it is listed up to `repetitions` times. A
    /// witness may be listed more than once.
    pub fn enumerate_up_to(&self, repetitions: usize) -> (witnesses: Vec<String>)
        ensures
            strings_view(witnesses@) == self@.enumerate_up_to(repetitions as nat),
        decreases self,
    {
        broadcast use group_views;

        match self {
            Expression::Literal(text) => {
                let mut witnesses: Vec<String> = Vec::new();
                witnesses.push(text.clone());
                witnesses
            },
            Expression::Sequence(parts) => {
                let mut witnesses: Vec<String> = Vec::new();
                witnesses.push(String::new());
                let mut index: usize = 0;
                while index < parts.len()
                    invariant
                        index <= parts.len(),
                        self@ == ExpressionView::Sequence(expression_views(parts@)),
                        forall|k: int| 0 <= k < parts.len() ==> decreases_to!(self => #[trigger] parts[k]),
                        strings_view(witnesses@) == ExpressionView::products(
                            expression_views(parts@).take(index as int),
                            repetitions as nat,
                        ),
                    decreases parts.len() - index,
                {
                    assert(expression_views(parts@).take(index + 1).drop_last() =~= expression_views(
                        parts@,
                    ).take(index as int));
                    let more = parts[index].enumerate_up_to(repetitions);
                    witnesses = cross(&witnesses, &more);
                    index = index + 1;
                }
                assert(expression_views(parts@).take(index as int) =~= expression_views(parts@));
                witnesses
            },
            Expression::Alternate(choices) => {
                let mut witnesses: Vec<String> = Vec::new();
                let mut index: usize = 0;
                while index < choices.len()
                    invariant
                        index <= choices.len(),
                        self@ == ExpressionView::Alternate(expression_views(choices@)),
                        forall|k: int|
                            0 <= k < choices.len() ==> decreases_to!(self => #[trigger] choices[k]),
                        strings_view(witnesses@) == ExpressionView::unions(
                            expression_views(choices@).take(index as int),
                            repetitions as nat,
                        ),
                    decreases choices.len() - index,
                {
                    assert(expression_views(choices@).take(index + 1).drop_last()
                        =~= expression_views(choices@).take(index as int));
                    let mut more = choices[index].enumerate_up_to(repetitions);
                    witnesses.append(&mut more);
                    index = index + 1;
                }
                assert(expression_views(choices@).take(index as int) =~= expression_views(choices@));
                witnesses
            },
            Expression::Optional(inner) => {
                let mut witnesses = inner.enumerate_up_to(repetitions);
                witnesses.push(String::new());
                witnesses
            },
            Expression::Star(inner) => {
                let once = inner.enumerate_up_to(repetitions);
                self::repetitions(&once, repetitions)
            },
        }
    }

    /// The witnesses that are listed for the expression, in their order,
    /// with no more than two repetitions of what is repeated. A witness may
    /// be listed more than once.
    pub fn enumerate(&self) -> (witnesses: Vec<String>)
        ensures
            strings_view(witnesses@) == self@.enumerate(),
    {
        self.enumerate_up_to(REPETITIONS)
    }
}

/// A string of `left` followed by a string of `right` is among all the
/// strings of `left` followed by all the strings of `right`.
pub proof fn lemma_cross_contains(
    left: Seq<Seq<char>>,
    right: Seq<Seq<char>>,
    head: Seq<char>,
    tail: Seq<char>,
)
    requires
        left.contains(head),
        right.contains(tail),
    ensures
        cross_spec(left, right).contains(head + tail),
{
    let i = choose|i: int| 0 <= i < left.len() && left[i] == head;
    let j = choose|j: int| 0 <= j < right.len() && right[j] == tail;
    let width = right.len() as int;
    let k = i * width + j;
    assert(0 <= k < left.len() * right.len()) by (nonlinear_arith)
        requires
            0 <= i < left.len(),
            0 <= j < width,
            width == right.len(),
            k == i * width + j,
    ;
    lemma_fundamental_div_mod_converse(k, width, i, j);
    assert(cross_spec(left, right)[k] == head + tail);
}

/// One string alone, crossed with a list, is the list.
pub proof fn lemma_cross_unit(items: Seq<Seq<char>>)
    ensures
        cross_spec(seq![Seq::<char>::empty()], items) == items,
{
    let unit = seq![Seq::<char>::empty()];
    let crossed = cross_spec(unit, items);
    assert(unit.len() * items.len() == items.len()) by (nonlinear_arith)
        requires
            unit.len() == 1,
    ;
    assert forall|k: int| 0 <= k < items.len() implies #[trigger] crossed[k] == items[k] by {
        lemma_fundamental_div_mod_converse(k, items.len() as int, 0, k);
        assert(unit[0] + items[k] =~= items[k]);
    }
    assert(crossed =~= items);
}

/// Listed up to two times, the items come after the empty string and
/// before their pairs.
pub proof fn lemma_repetitions_default(items: Seq<Seq<char>>)
    ensures
        repetitions_spec(items, REPETITIONS as nat) == seq![Seq::<char>::empty()] + items
            + cross_spec(items, items),
{
    lemma_cross_unit(items);
    assert(powers_spec(items, 0) == seq![Seq::<char>::empty()]);
    assert(powers_spec(items, 1) == items);
    assert(powers_spec(items, 2) == cross_spec(items, items));
    assert(repetitions_spec(items, 0) == seq![Seq::<char>::empty()]);
    assert(repetitions_spec(items, 1) == seq![Seq::<char>::empty()] + items);
}

/// A repetition lists nothing, then each witness of what is repeated, then
/// each pair of them.
pub proof fn lemma_star_enumerate(inner: ExpressionView)
    ensures
        ExpressionView::Star(Box::new(inner)).enumerate() == seq![Seq::<char>::empty()]
            + inner.enumerate() + cross_spec(inner.enumerate(), inner.enumerate()),
{
    lemma_repetitions_default(inner.enumerate());
}

/// Listed at least once, the items are among their repetitions.
pub proof fn lemma_repetitions_contains(items: Seq<Seq<char>>, most: nat, item: Seq<char>)
    requires
        most >= 1,
        items.contains(item),
    ensures
        repetitions_spec(items, most).contains(item),
    decreases most,
{
    let before = repetitions_spec(items, (most - 1) as nat);
    let last = powers_spec(items, most);
    if most == 1 {
        lemma_cross_unit(items);
        assert(powers_spec(items, 0) == seq![Seq::<char>::empty()]);
        assert(last == items);
        let at = choose|at: int| 0 <= at < items.len() && items[at] == item;
        assert((before + last)[before.len() + at] == item);
    } else {
        lemma_repetitions_contains(items, (most - 1) as nat, item);
        let at = choose|at: int| 0 <= at < before.len() && before[at] == item;
        assert((before + last)[at] == item);
    }
}

/// The witnesses of two lists of alternatives, one after the other, are
/// those of the first list followed by those of the second.
pub proof fn lemma_unions_add(first: Seq<ExpressionView>, second: Seq<ExpressionView>, most: nat)
    ensures
        ExpressionView::unions(first + second, most) == ExpressionView::unions(first, most)
            + ExpressionView::unions(second, most),
    decreases second.len(),
{
    if second.len() == 0 {
        assert(first + second =~= first);
        assert(ExpressionView::unions(first, most) + ExpressionView::unions(second, most)
            =~= ExpressionView::unions(first, most));
    } else {
        assert((first + second).drop_last() =~= first + second.drop_last());
        assert((first + second).last() == second.last());
        lemma_unions_add(first, second.drop_last(), most);
        assert((ExpressionView::unions(first, most) + ExpressionView::unions(
            second.drop_last(),
            most,
        )) + second.last().enumerate_up_to(most) =~= ExpressionView::unions(first, most) + (
        ExpressionView::unions(second.drop_last(), most) + second.last().enumerate_up_to(most)));
    }
}

/// The witnesses of each alternative are among the witnesses of the choice.
pub proof fn lemma_unions_contains(
    choices: Seq<ExpressionView>,
    most: nat,
    index: int,
    witness: Seq<char>,
)
    requires
        0 <= index < choices.len(),
        choices[index].enumerate_up_to(most).contains(witness),
    ensures
        ExpressionView::unions(choices, most).contains(witness),
    decreases choices.len(),
{
    let before = ExpressionView::unions(choices.drop_last(), most);
    let last = choices.last().enumerate_up_to(most);
    if index == choices.len() - 1 {
        let at = choose|at: int| 0 <= at < last.len() && last[at] == witness;
        assert((before + last)[before.len() + at] == witness);
    } else {
        lemma_unions_contains(choices.drop_last(), most, index, witness);
        let at = choose|at: int| 0 <= at < before.len() && before[at] == witness;
        assert((before + last)[at] == witness);
    }
}

/// The one witness of a sequence of parts is among the witnesses that are
/// listed for it.
pub proof fn lemma_products_contains(parts: Seq<ExpressionView>, most: nat)
    requires
        most >= 1,
        forall|i: int| 0 <= i < parts.len() ==> (#[trigger] parts[i]).wf(),
    ensures
        ExpressionView::products(parts, most).contains(ExpressionView::examples(parts)),
    decreases parts, 0int,
{
    if parts.len() == 0 {
        assert(ExpressionView::products(parts, most)[0] == Seq::<char>::empty());
    } else {
        assert forall|i: int| 0 <= i < parts.drop_last().len() implies (
        #[trigger] parts.drop_last()[i]).wf() by {
            assert(parts.drop_last()[i] == parts[i]);
        }
        lemma_products_contains(parts.drop_last(), most);
        lemma_example_enumerated_up_to(parts.last(), most);
        lemma_cross_contains(
            ExpressionView::products(parts.drop_last(), most),
            parts.last().enumerate_up_to(most),
            ExpressionView::examples(parts.drop_last()),
            parts.last().example(),
        );
    }
}

/// The one witness that stands for an expression is among the witnesses
/// that are listed for it, provided that every choice in the expression has
/// an alternative and that repetitions are listed at least once.
pub proof fn lemma_example_enumerated_up_to(expression: ExpressionView, most: nat)
    requires
        expression.wf(),
        most >= 1,
    ensures
        expression.enumerate_up_to(most).contains(expression.example()),
    decreases expression, 1int,
{
    match expression {
        ExpressionView::Literal(text) => {
            assert(seq![text][0] == text);
        },
        ExpressionView::Sequence(parts) => {
            lemma_products_contains(parts, most);
        },
        ExpressionView::Alternate(choices) => {
            lemma_example_enumerated_up_to(choices[0], most);
            lemma_unions_contains(choices, most, 0, choices[0].example());
        },
        ExpressionView::Optional(inner) => {
            lemma_example_enumerated_up_to(*inner, most);
            let listed = inner.enumerate_up_to(most);
            let at = choose|at: int| 0 <= at < listed.len() && listed[at] == inner.example();
            assert(listed.push(Seq::empty())[at] == inner.example());
        },
        ExpressionView::Star(inner) => {
            lemma_example_enumerated_up_to(*inner, most);
            lemma_repetitions_contains(inner.enumerate_up_to(most), most, inner.example());
        },
    }
}

/// The two ways of generating agree: the one witness that stands for an
/// expression is among the witnesses that are listed for it, provided that
/// every choice in the expression has an alternative.
pub proof fn lemma_example_enumerated(expression: ExpressionView)
    requires
        expression.wf(),
    ensures
        expression.enumerate().contains(expression.example()),
{
    lemma_example_enumerated_up_to(expression, REPETITIONS as nat);
}

} // verus!
