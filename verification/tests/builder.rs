use zinc::builder::Builder;
use zinc::lexical::Location;
use zinc::tree::ExpressionOperand;
use zinc::tree::ExpressionOperator;
use zinc::tree::ExpressionTree;
use zinc::tree::ExpressionTreeNode;

fn identifier(name: &str) -> ExpressionOperand {
    ExpressionOperand::Identifier(name.to_string())
}

fn leaf(name: &str, column: usize) -> ExpressionTree {
    ExpressionTree::new(Location::new(1, column), ExpressionTreeNode::operand(identifier(name)))
}

fn node(operator: ExpressionOperator, column: usize, left: ExpressionTree, right: ExpressionTree) -> ExpressionTree {
    ExpressionTree::new_with_leaves(
        Location::new(1, column),
        ExpressionTreeNode::operator(operator),
        Some(left),
        Some(right),
    )
}

#[test]
fn fresh_builder_is_empty() {
    assert!(Builder::default().is_empty());
    let mut builder = Builder::default();
    builder.eat_operand(ExpressionOperand::Unit, Location::new(1, 1));
    assert!(!builder.is_empty());
}

#[test]
fn single_operand_is_a_leaf() {
    let mut builder = Builder::default();
    builder.eat_operand(identifier("a"), Location::new(1, 1));
    assert_eq!(leaf("a", 1), builder.finish());
}

#[test]
fn single_subtree_is_moved_up() {
    let mut builder = Builder::default();
    let subtree = node(ExpressionOperator::Addition, 3, leaf("a", 1), leaf("b", 5));
    builder.eat(node(ExpressionOperator::Addition, 3, leaf("a", 1), leaf("b", 5)));
    assert_eq!(subtree, builder.finish());
}

#[test]
fn binary_expression() {
    // a + b
    let mut builder = Builder::default();
    builder.eat_operand(identifier("a"), Location::new(1, 1));
    builder.eat_operator(ExpressionOperator::Addition, Location::new(1, 3));
    builder.eat_operand(identifier("b"), Location::new(1, 5));
    assert_eq!(node(ExpressionOperator::Addition, 3, leaf("a", 1), leaf("b", 5)), builder.finish());
}

#[test]
fn operators_group_from_the_left() {
    // a - b - c
    let mut builder = Builder::default();
    builder.eat_operand(identifier("a"), Location::new(1, 1));
    builder.eat_operator(ExpressionOperator::Subtraction, Location::new(1, 3));
    builder.eat_operand(identifier("b"), Location::new(1, 5));
    builder.eat_operator(ExpressionOperator::Subtraction, Location::new(1, 7));
    builder.eat_operand(identifier("c"), Location::new(1, 9));
    let expected = node(
        ExpressionOperator::Subtraction,
        7,
        node(ExpressionOperator::Subtraction, 3, leaf("a", 1), leaf("b", 5)),
        leaf("c", 9),
    );
    assert_eq!(expected, builder.finish());
}

#[test]
fn prefix_operator_takes_its_operand_on_the_left() {
    // !a
    let mut builder = Builder::default();
    builder.eat_operator(ExpressionOperator::Not, Location::new(1, 1));
    builder.eat_operand(identifier("a"), Location::new(1, 2));
    let expected = ExpressionTree::new_with_leaves(
        Location::new(1, 1),
        ExpressionTreeNode::operator(ExpressionOperator::Not),
        Some(leaf("a", 2)),
        None,
    );
    assert_eq!(expected, builder.finish());
}

#[test]
fn full_builder_takes_a_subtree_on_the_right() {
    // (a * b) with two more subtrees
    let mut builder = Builder::default();
    builder.eat_operator(ExpressionOperator::Multiplication, Location::new(1, 3));
    builder.eat(leaf("a", 1));
    builder.eat(leaf("b", 5));
    builder.eat(leaf("c", 9));
    let expected = ExpressionTree::new_with_leaves(
        Location::new(1, 3),
        ExpressionTreeNode::operator(ExpressionOperator::Multiplication),
        Some(node(ExpressionOperator::Multiplication, 3, leaf("a", 1), leaf("b", 5))),
        Some(leaf("c", 9)),
    );
    assert_eq!(expected, builder.finish());
}

#[test]
fn full_builder_takes_an_operand_on_the_right() {
    let mut builder = Builder::default();
    builder.eat_operand(identifier("x"), Location::new(1, 1));
    builder.eat(leaf("a", 2));
    builder.eat(leaf("b", 3));
    builder.eat_operand(ExpressionOperand::LiteralInteger("7".to_string()), Location::new(1, 4));
    let inner = ExpressionTree::new_with_leaves(
        Location::new(1, 1),
        ExpressionTreeNode::operand(identifier("x")),
        Some(leaf("a", 2)),
        Some(leaf("b", 3)),
    );
    let expected = ExpressionTree::new_with_leaves(
        Location::new(1, 1),
        ExpressionTreeNode::operand(identifier("x")),
        Some(inner),
        Some(ExpressionTree::new(
            Location::new(1, 4),
            ExpressionTreeNode::operand(ExpressionOperand::LiteralInteger("7".to_string())),
        )),
    );
    assert_eq!(expected, builder.finish());
}

#[test]
fn duplicates_are_equal() {
    let operand = ExpressionOperand::LiteralBoolean(true);
    assert_eq!(operand, operand.duplicate());
    let node = ExpressionTreeNode::operand(identifier("z"));
    assert_eq!(node, node.duplicate());
}
