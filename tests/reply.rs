use dns_codec::{Class, Message, Name, Question, Record, Type};

fn query(opcode: u8) -> Message {
    Message {
        id: 0xFFFF,
        opcode,
        rd: 1,
        aa: 1,
        nscount: 3,
        questions: vec![
            Question {
                name: Name("codecrafters.io".into()),
                qtype: Type::MX,
                class: Class::CH,
            },
            Question {
                name: Name("api.github.com".into()),
                qtype: Type::A,
                class: Class::IN,
            },
        ],
        ..Message::default()
    }
}

#[test]
fn reply_header_follows_the_query() {
    let reply = query(0).reply_to();
    assert_eq!(reply.id, 0xFFFF);
    assert_eq!(reply.qr, 1);
    assert_eq!(reply.opcode, 0);
    assert_eq!(reply.rd, 1);
    assert_eq!(reply.aa, 0);
    assert_eq!(reply.rcode, 0);
    assert_eq!(reply.nscount, 0);
    assert_eq!(reply.questions, query(0).questions);
    assert!(reply.answers.is_empty());
}

#[test]
fn reply_to_other_opcode_is_not_implemented() {
    let reply = query(2).reply_to();
    assert_eq!(reply.opcode, 2);
    assert_eq!(reply.rcode, 4);
}

#[test]
fn local_reply_answers_every_question() {
    let reply = query(0).local_reply();
    assert_eq!(reply.answers.len(), 2);
    assert_eq!(
        reply.answers[0],
        Record {
            name: Name("codecrafters.io".into()),
            rtype: Type::MX,
            class: Class::CH,
            ttl: 60,
            rdata: vec![8, 8, 8, 8],
        }
    );
    assert_eq!(reply.answers[1].name, Name("api.github.com".into()));
    let bytes = reply.to_bytes().unwrap();
    assert_eq!(Message::from_bytes(&bytes), Ok(reply));
}

#[test]
fn forwarded_query_asks_one_question_for_a() {
    let q = query(0);
    let fwd = q.forward_query(1);
    assert_eq!(fwd.id, 0);
    assert_eq!(fwd.aa, 1);
    assert_eq!(fwd.nscount, 3);
    assert_eq!(
        fwd.questions,
        vec![Question {
            name: Name("api.github.com".into()),
            qtype: Type::A,
            class: Class::IN,
        }]
    );
    let fwd0 = q.forward_query(0);
    assert_eq!(fwd0.id, 0xFFFF);
    assert_eq!(fwd0.questions[0].name, Name("codecrafters.io".into()));
    assert_eq!(fwd0.questions[0].qtype, Type::A);
}
