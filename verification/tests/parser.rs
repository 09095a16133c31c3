use riddle_core::riddle::ast::Expr;
use riddle_core::riddle::ast::Statement;
use riddle_core::riddle::lexer::Lexer;
use riddle_core::riddle::parser::Parser;

fn parse_expression(input: &str) -> Expr {
    let lexer = Lexer::new(input);
    let mut parser = Parser::new(lexer);
    parser.parse_expression(None).expect("Failed to parse expression")
}

#[test]
fn test_literals() {
    assert_eq!(parse_expression("true"), Expr::Bool(true));
    assert_eq!(parse_expression("false"), Expr::Bool(false));
    assert_eq!(parse_expression("123"), Expr::Int(123));
    assert_eq!(parse_expression("12.34"), Expr::Real(1234, 100));
}

#[test]
fn test_identifiers() {
    assert_eq!(parse_expression("foo"), Expr::QualifiedId { ids: vec!["foo".to_string()] });
    assert_eq!(parse_expression("foo.bar"), Expr::QualifiedId { ids: vec!["foo".to_string(), "bar".to_string()] });
}

#[test]
fn test_parentheses() {
    assert_eq!(parse_expression("(123)"), Expr::Int(123));
}

#[test]
fn test_function_calls() {
    assert_eq!(parse_expression("f()"), Expr::Function { name: vec!["f".to_string()], args: vec![] });
    assert_eq!(parse_expression("g(1, true)"), Expr::Function { name: vec!["g".to_string()], args: vec![Expr::Int(1), Expr::Bool(true)] });
    assert_eq!(parse_expression("Math.max(1, 2)"), Expr::Function { name: vec!["Math".to_string(), "max".to_string()], args: vec![Expr::Int(1), Expr::Int(2)] });
}

#[test]
fn parser_test_arithmetic() {
    // 1 + 2
    assert_eq!(parse_expression("1 + 2"), Expr::Sum { terms: vec![Expr::Int(1), Expr::Int(2)] });

    // 1 * 2
    assert_eq!(parse_expression("1 * 2"), Expr::Mul { factors: vec![Expr::Int(1), Expr::Int(2)] });

    // 1 + 2 * 3
    assert_eq!(parse_expression("1 + 2 * 3"), Expr::Sum { terms: vec![Expr::Int(1), Expr::Mul { factors: vec![Expr::Int(2), Expr::Int(3)] },] });

    // (1 + 2) * 3
    assert_eq!(parse_expression("(1 + 2) * 3"), Expr::Mul { factors: vec![Expr::Sum { terms: vec![Expr::Int(1), Expr::Int(2)] }, Expr::Int(3),] });
}

#[test]
fn test_relational() {
    assert_eq!(parse_expression("1 < 2"), Expr::Lt { left: Box::new(Expr::Int(1)), right: Box::new(Expr::Int(2)) });
    assert_eq!(parse_expression("1 <= 2"), Expr::Leq { left: Box::new(Expr::Int(1)), right: Box::new(Expr::Int(2)) });
    assert_eq!(parse_expression("1 > 2"), Expr::Gt { left: Box::new(Expr::Int(1)), right: Box::new(Expr::Int(2)) });
    assert_eq!(parse_expression("1 >= 2"), Expr::Geq { left: Box::new(Expr::Int(1)), right: Box::new(Expr::Int(2)) });
    assert_eq!(parse_expression("1 == 1"), Expr::Eq { left: Box::new(Expr::Int(1)), right: Box::new(Expr::Int(1)) });
    assert_eq!(parse_expression("1 != 2"), Expr::Neq { left: Box::new(Expr::Int(1)), right: Box::new(Expr::Int(2)) });
}

#[test]
fn test_logical() {
    assert_eq!(parse_expression("true & false"), Expr::And { terms: vec![Expr::Bool(true), Expr::Bool(false)] });
    assert_eq!(parse_expression("true | false"), Expr::Or { terms: vec![Expr::Bool(true), Expr::Bool(false)] });

    // n-ary logical ops
    assert_eq!(
        parse_expression("a & b & c"),
        Expr::And {
            terms: vec![Expr::QualifiedId { ids: vec!["a".to_string()] }, Expr::QualifiedId { ids: vec!["b".to_string()] }, Expr::QualifiedId { ids: vec!["c".to_string()] },]
        }
    );

    // Mixed precedence: & binds tighter than |
    assert_eq!(
        parse_expression("a | b & c"),
        Expr::Or {
            terms: vec![
                Expr::QualifiedId { ids: vec!["a".to_string()] },
                Expr::And {
                    terms: vec![Expr::QualifiedId { ids: vec!["b".to_string()] }, Expr::QualifiedId { ids: vec!["c".to_string()] },]
                }
            ]
        }
    );
}

#[test]
fn test_complex_expression() {
    assert_eq!(
        parse_expression("f(x) + 3 * (y - 2) >= 10 & g(z) != 5"),
        Expr::And {
            terms: vec![
                Expr::Geq {
                    left: Box::new(Expr::Sum {
                        terms: vec![
                            Expr::Function { name: vec!["f".to_string()], args: vec![Expr::QualifiedId { ids: vec!["x".to_string()] }] },
                            Expr::Mul {
                                factors: vec![
                                    Expr::Int(3),
                                    Expr::Sum {
                                        terms: vec![Expr::QualifiedId { ids: vec!["y".to_string()] }, Expr::Opposite { term: Box::new(Expr::Int(2)) },]
                                    }
                                ]
                            }
                        ]
                    }),
                    right: Box::new(Expr::Int(10))
                },
                Expr::Neq {
                    left: Box::new(Expr::Function { name: vec!["g".to_string()], args: vec![Expr::QualifiedId { ids: vec!["z".to_string()] }] }),
                    right: Box::new(Expr::Int(5))
                }
            ]
        }
    );
}

#[test]
fn test_predicate() {
    let input = r#"
        predicate isEven(int x) {
            2*x == 0;
        }
    "#;
    let lexer = Lexer::new(input);
    let mut parser = Parser::new(lexer);
    let predicate = parser.parse_predicate().expect("Failed to parse predicate");
    assert_eq!(predicate.name, "isEven");
    assert_eq!(predicate.args, vec![(vec!["int".to_string()], "x".to_string())]);
    assert_eq!(predicate.statements.len(), 1);
    if let Statement::Expr(Expr::Eq { left, right }) = &predicate.statements[0] {
        assert_eq!(**left, Expr::Mul { factors: vec![Expr::Int(2), Expr::QualifiedId { ids: vec!["x".to_string()] }] });
        assert_eq!(**right, Expr::Int(0));
    } else {
        panic!("Expected equality statement in predicate body");
    }
}

#[test]
fn test_constructor() {
    let input = r#"
        Point(int x, int y) : distance(x, y) {
            distance = sqrt(x*x + y*y);
        }
    "#;
    let lexer = Lexer::new(input);
    let mut parser = Parser::new(lexer);
    let constructor = parser.parse_constructor().expect("Failed to parse constructor");
    assert_eq!(constructor.args, vec![(vec!["int".to_string()], "x".to_string()), (vec!["int".to_string()], "y".to_string())]);
    assert_eq!(constructor.init, vec![("distance".to_string(), vec![Expr::QualifiedId { ids: vec!["x".to_string()] }, Expr::QualifiedId { ids: vec!["y".to_string()] }])]);
    assert_eq!(constructor.statements.len(), 1);
    if let Statement::Assign { name, value } = &constructor.statements[0] {
        assert_eq!(name, &vec!["distance".to_string()]);
        assert_eq!(
            *value,
            Expr::Function {
                name: vec!["sqrt".to_string()],
                args: vec![Expr::Sum {
                    terms: vec![
                        Expr::Mul {
                            factors: vec![Expr::QualifiedId { ids: vec!["x".to_string()] }, Expr::QualifiedId { ids: vec!["x".to_string()] }]
                        },
                        Expr::Mul {
                            factors: vec![Expr::QualifiedId { ids: vec!["y".to_string()] }, Expr::QualifiedId { ids: vec!["y".to_string()] }]
                        },
                    ]
                }]
            }
        );
    } else {
        panic!("Expected assignment statement in constructor body");
    }
}

#[test]
fn test_method() {
    let input = r#"
        void move(int dx, int dy) {
            x = x + dx;
            y = y + dy;
        }
    "#;
    let lexer = Lexer::new(input);
    let mut parser = Parser::new(lexer);
    let method = parser.parse_method().expect("Failed to parse method");
    assert_eq!(method.return_type, None);
    assert_eq!(method.name, "move");
    assert_eq!(method.args, vec![(vec!["int".to_string()], "dx".to_string()), (vec!["int".to_string()], "dy".to_string())]);
    assert_eq!(method.statements.len(), 2);
    if let Statement::Assign { name, value } = &method.statements[0] {
        assert_eq!(name, &vec!["x".to_string()]);
        assert_eq!(
            *value,
            Expr::Sum {
                terms: vec![Expr::QualifiedId { ids: vec!["x".to_string()] }, Expr::QualifiedId { ids: vec!["dx".to_string()] }]
            }
        );
    } else {
        panic!("Expected assignment statement in method body");
    }
    if let Statement::Assign { name, value } = &method.statements[1] {
        assert_eq!(name, &vec!["y".to_string()]);
        assert_eq!(
            *value,
            Expr::Sum {
                terms: vec![Expr::QualifiedId { ids: vec!["y".to_string()] }, Expr::QualifiedId { ids: vec!["dy".to_string()] }]
            }
        );
    } else {
        panic!("Expected assignment statement in method body");
    }
}

#[test]
fn test_function() {
    let input = r#"
            int add(int a, int b) {
                return a + b;
            }
        "#;
    let lexer = Lexer::new(input);
    let mut parser = Parser::new(lexer);
    let method = parser.parse_method().expect("Failed to parse function");
    assert_eq!(method.return_type, Some(vec!["int".to_string()]));
    assert_eq!(method.name, "add");
    assert_eq!(method.args, vec![(vec!["int".to_string()], "a".to_string()), (vec!["int".to_string()], "b".to_string())]);
    assert_eq!(method.statements.len(), 1);
    if let Statement::Return { value } = &method.statements[0] {
        assert_eq!(
            *value,
            Expr::Sum {
                terms: vec![Expr::QualifiedId { ids: vec!["a".to_string()] }, Expr::QualifiedId { ids: vec!["b".to_string()] }]
            }
        );
    } else {
        panic!("Expected return statement in function body");
    }
}

#[test]
fn test_disjunction() {
    let input = r#"
        {
            x == 1;
        } or {
            x == 2;
        }
    "#;
    let lexer = Lexer::new(input);
    let mut parser = Parser::new(lexer);
    let statement = parser.parse_statement().expect("Failed to parse disjunction");
    if let Statement::Disjunction { disjuncts } = statement {
        assert_eq!(disjuncts.len(), 2);
        if let Statement::Expr(Expr::Eq { left, right }) = &disjuncts[0].0[0] {
            assert_eq!(**left, Expr::QualifiedId { ids: vec!["x".to_string()] });
            assert_eq!(**right, Expr::Int(1));
        } else {
            panic!("Expected equality statement in first disjunct");
        }
        if let Statement::Expr(Expr::Eq { left, right }) = &disjuncts[1].0[0] {
            assert_eq!(**left, Expr::QualifiedId { ids: vec!["x".to_string()] });
            assert_eq!(**right, Expr::Int(2));
        } else {
            panic!("Expected equality statement in second disjunct");
        }
    } else {
        panic!("Expected disjunction statement");
    }
}

#[test]
fn test_priced_disjunction() {
    let input = r#"
        {
            x == 1;
        } [5] or {
            x == 2;
        } [10.0]
    "#;
    let lexer = Lexer::new(input);
    let mut parser = Parser::new(lexer);
    let statement = parser.parse_statement().expect("Failed to parse priced disjunction");
    if let Statement::Disjunction { disjuncts } = statement {
        assert_eq!(disjuncts.len(), 2);
        assert_eq!(disjuncts[0].1, Expr::Int(5));
        assert_eq!(disjuncts[1].1, Expr::Real(100, 10));
    } else {
        panic!("Expected disjunction statement");
    }
}

#[test]
fn test_for_all() {
    let input = r#"
        for (int i) {
            x == i;
        }
    "#;
    let lexer = Lexer::new(input);
    let mut parser = Parser::new(lexer);
    let statement = parser.parse_statement().expect("Failed to parse for loop");
    if let Statement::ForAll { var_type, var_name, statements } = statement {
        assert_eq!(var_type, vec!["int".to_string()]);
        assert_eq!(var_name, "i");
        assert_eq!(statements.len(), 1);
        if let Statement::Expr(Expr::Eq { left, right }) = &statements[0] {
            assert_eq!(**left, Expr::QualifiedId { ids: vec!["x".to_string()] });
            assert_eq!(**right, Expr::QualifiedId { ids: vec!["i".to_string()] });
        } else {
            panic!("Expected equality statement in for loop body");
        }
    } else {
        panic!("Expected for loop statement");
    }
}

#[test]
fn test_formula() {
    let input = r#"
        fact isEven = new Even(x: 2*x);
    "#;
    let lexer = Lexer::new(input);
    let mut parser = Parser::new(lexer);
    let statement = parser.parse_statement().expect("Failed to parse formula");
    if let Statement::Formula { is_fact, name, predicate_name, args } = statement {
        assert!(is_fact);
        assert_eq!(name, "isEven");
        assert_eq!(predicate_name, vec!["Even".to_string()]);
        assert_eq!(args.len(), 1);
        assert_eq!(args[0].0, "x");
        if let Expr::Mul { factors } = &args[0].1 {
            assert_eq!(factors.len(), 2);
            assert_eq!(factors[0], Expr::Int(2));
            assert_eq!(factors[1], Expr::QualifiedId { ids: vec!["x".to_string()] });
        } else {
            panic!("Expected multiplication expression in formula argument");
        }
    } else {
        panic!("Expected formula statement");
    }
}

#[test]
fn test_complex_statement() {
    let input = r#"
        {
            x == 1;
            for (int i) {
                y == i;
            }
        } or {
            x == 2;
            for (int j) {
                y == j;
            }
        } [42.0]
    "#;
    let lexer = Lexer::new(input);
    let mut parser = Parser::new(lexer);
    let statement = parser.parse_statement().expect("Failed to parse complex statement");
    if let Statement::Disjunction { disjuncts } = statement {
        assert_eq!(disjuncts.len(), 2);
        // First disjunct
        assert_eq!(disjuncts[0].1, Expr::Int(1));
        if let Statement::ForAll { var_type, var_name, statements } = &disjuncts[0].0[1] {
            assert_eq!(var_type, &vec!["int".to_string()]);
            assert_eq!(var_name, "i");
            assert_eq!(statements.len(), 1);
            if let Statement::Expr(Expr::Eq { left, right }) = &statements[0] {
                assert_eq!(**left, Expr::QualifiedId { ids: vec!["y".to_string()] });
                assert_eq!(**right, Expr::QualifiedId { ids: vec!["i".to_string()] });
            } else {
                panic!("Expected equality statement in first for loop body");
            }
        } else {
            panic!("Expected for loop in first disjunct");
        }
        // Second disjunct
        assert_eq!(disjuncts[1].1, Expr::Real(420, 10));
        if let Statement::ForAll { var_type, var_name, statements } = &disjuncts[1].0[1] {
            assert_eq!(var_type, &vec!["int".to_string()]);
            assert_eq!(var_name, "j");
            assert_eq!(statements.len(), 1);
            if let Statement::Expr(Expr::Eq { left, right }) = &statements[0] {
                assert_eq!(**left, Expr::QualifiedId { ids: vec!["y".to_string()] });
                assert_eq!(**right, Expr::QualifiedId { ids: vec!["j".to_string()] });
            } else {
                panic!("Expected equality statement in second for loop body");
            }
        } else {
            panic!("Expected for loop in second disjunct");
        }
    }
}

#[test]
fn test_class() {
    let input = r#"
        class Point {
            int x, y;

            void move(int dx, int dy) {
                x = x + dx;
                y = y + dy;
            }
        }
    "#;
    let lexer = Lexer::new(input);
    let mut parser = Parser::new(lexer);
    let class = parser.parse_class().expect("Failed to parse class");
    assert_eq!(class.name, "Point");
    assert_eq!(class.fields.len(), 1);
    assert_eq!(class.fields[0].0, vec!["int".to_string()]);
    assert_eq!(class.fields[0].1, vec!["x".to_string(), "y".to_string()]);
    assert_eq!(class.methods.len(), 1);
    let method = &class.methods[0];
    assert_eq!(method.return_type, None);
    assert_eq!(method.name, "move");
    assert_eq!(method.args, vec![(vec!["int".to_string()], "dx".to_string()), (vec!["int".to_string()], "dy".to_string())]);
    assert_eq!(method.statements.len(), 2);
}

fn statement(input: &str) -> Result<Statement, String> {
    Parser::new(Lexer::new(input)).parse_statement()
}

fn id(name: &str) -> Expr {
    Expr::QualifiedId { ids: vec![name.to_string()] }
}

#[test]
fn parser_error_messages() {
    assert_eq!(statement("x == 1"), Err("Expected Semicolon, found end of input".to_string()));
    assert_eq!(statement("x == ;"), Err("Unexpected token: Semicolon".to_string()));
    assert_eq!(statement("(1 + 2;"), Err("Expected RParen, found Semicolon".to_string()));
    assert_eq!(statement("a. = 1;"), Err("Expected identifier after '.'".to_string()));
    assert_eq!(statement("int 5;"), Err("Expected variable name".to_string()));
    assert_eq!(statement(""), Err("Unexpected end of input".to_string()));
    assert_eq!(statement("for x"), Err("Expected LParen, found Identifier(\"x\")".to_string()));
    assert_eq!(statement("for () {}"), Err("Expected type name".to_string()));
    assert_eq!(statement("for (int) {}"), Err("Expected variable name in for loop".to_string()));
    assert_eq!(
        statement("fact = new P();"),
        Err("Expected identifier after 'fact' or 'goal'".to_string())
    );
    assert_eq!(
        statement("goal g = new P(1: 2);"),
        Err("Expected identifier in formula arguments".to_string())
    );
    assert_eq!(statement("f(x);"), Err("Expected Semicolon, found LParen".to_string()));
    let mut p = Parser::new(Lexer::new("void m(int) {}"));
    assert_eq!(p.parse_method().err(), Some("Expected identifier in method arguments".to_string()));
    let mut p = Parser::new(Lexer::new("{ }"));
    assert_eq!(p.parse_method().err(), Some("Expected return type or 'void'".to_string()));
    let mut p = Parser::new(Lexer::new("class { }"));
    assert_eq!(p.parse_class().err(), Some("Expected class name".to_string()));
    let mut p = Parser::new(Lexer::new("class A { + }"));
    assert_eq!(
        p.parse_class().err(),
        Some("Expected 'constructor', 'predicate', or method definition".to_string())
    );
    let mut p = Parser::new(Lexer::new("predicate (int x) {}"));
    assert_eq!(
        p.parse_predicate().err(),
        Some("Expected identifier after 'predicate'".to_string())
    );
    let mut p = Parser::new(Lexer::new("A() : 1 {}"));
    assert_eq!(
        p.parse_constructor().err(),
        Some("Expected identifier in constructor initialization".to_string())
    );
}

#[test]
fn parser_statements_of_every_sort() {
    assert_eq!(
        statement("real x = 1.5, y;"),
        Ok(Statement::LocalField {
            field_type: vec!["real".to_string()],
            fields: vec![("x".to_string(), Some(Expr::Real(15, 10))), ("y".to_string(), None)],
        })
    );
    assert_eq!(
        statement("string s;"),
        Ok(Statement::LocalField {
            field_type: vec!["string".to_string()],
            fields: vec![("s".to_string(), None)],
        })
    );
    assert_eq!(
        statement("a.B b = c;"),
        Ok(Statement::LocalField {
            field_type: vec!["a".to_string(), "B".to_string()],
            fields: vec![("b".to_string(), Some(id("c")))],
        })
    );
    assert_eq!(
        statement("p.q = -1;").err(),
        Some("Unexpected token: Minus".to_string())
    );
    assert_eq!(
        statement("p.q = 2 - 1;"),
        Ok(Statement::Assign {
            name: vec!["p".to_string(), "q".to_string()],
            value: Expr::Sum {
                terms: vec![Expr::Int(2), Expr::Opposite { term: Box::new(Expr::Int(1)) }]
            },
        })
    );
    assert_eq!(statement("return x;"), Ok(Statement::Return { value: id("x") }));
    assert_eq!(
        statement("goal g = new a.P(x: 1, y: z);"),
        Ok(Statement::Formula {
            is_fact: false,
            name: "g".to_string(),
            predicate_name: vec!["a".to_string(), "P".to_string()],
            args: vec![("x".to_string(), Expr::Int(1)), ("y".to_string(), id("z"))],
        })
    );
    assert_eq!(
        statement("x * 2 <= y;"),
        Ok(Statement::Expr(Expr::Leq {
            left: Box::new(Expr::Mul { factors: vec![id("x"), Expr::Int(2)] }),
            right: Box::new(id("y")),
        }))
    );
    assert_eq!(statement("true;"), Ok(Statement::Expr(Expr::Bool(true))));
}

#[test]
fn parser_division_takes_the_last_factor() {
    let mut p = Parser::new(Lexer::new("a * b / c * d"));
    assert_eq!(
        p.parse_expression(None),
        Ok(Expr::Div { left: Box::new(id("b")), right: Box::new(id("c")) })
    );
    assert_eq!(p.position(), 5);
    assert_eq!(p.len(), 7);
    let mut q = Parser::new(Lexer::new("6 / 3"));
    assert_eq!(
        q.parse_expression(None),
        Ok(Expr::Div { left: Box::new(Expr::Int(6)), right: Box::new(Expr::Int(3)) })
    );
}

#[test]
fn parser_class_with_every_member() {
    let input = r#"
        class Robot : base.Agent, Movable {
            real speed, load;
            Robot(real s) : speed(s), load(0) { speed == s; }
            predicate At(int x) { x >= 0; }
            base.Pose pose() { return here; }
            void stop() { }
        }
    "#;
    let class = Parser::new(Lexer::new(input)).parse_class().expect("a class");
    assert_eq!(class.name, "Robot");
    assert_eq!(
        class.parents,
        vec![vec!["base".to_string(), "Agent".to_string()], vec!["Movable".to_string()]]
    );
    assert_eq!(
        class.fields,
        vec![(vec!["real".to_string()], vec!["speed".to_string(), "load".to_string()])]
    );
    assert_eq!(class.constructors.len(), 1);
    assert_eq!(
        class.constructors[0].init,
        vec![("speed".to_string(), vec![id("s")]), ("load".to_string(), vec![Expr::Int(0)])]
    );
    assert_eq!(class.predicates.len(), 1);
    assert_eq!(class.predicates[0].name, "At");
    assert_eq!(class.methods.len(), 2);
    assert_eq!(
        class.methods[0].return_type,
        Some(vec!["base".to_string(), "Pose".to_string()])
    );
    assert_eq!(class.methods[1].return_type, None);
    assert_eq!(class.methods[1].statements.len(), 0);
}
